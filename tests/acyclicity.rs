use query_engine_acq::hypergraph::Hypergraph;
use query_engine_acq::query::{Atom, Query, Term};

fn var(name: &str) -> Term {
    Term::Variable(name.to_string())
}

fn atom(name: &str, vars: &[&str]) -> Atom {
    Atom {
        relation_name: name.to_string(),
        terms: vars.iter().map(|v| var(v)).collect(),
    }
}

fn boolean_query(body: Vec<Atom>) -> Query {
    Query {
        head: Atom {
            relation_name: "Answer".to_string(),
            terms: vec![],
        },
        body,
    }
}

#[test]
fn test_is_acyclic() {
    let body = vec![
        atom(
            "Beers",
            &["beer_id", "brew_id", "beer", "abv", "ibu", "ounces", "style", "style2"],
        ),
        atom("Styles", &["style_id", "cat_id", "style"]),
        atom("Categories", &["cat_id", "‘Belgian and French Ale’"]),
    ];
    let query = boolean_query(body);
    let hypergraph = Hypergraph::new(&query);
    assert!(hypergraph.is_acyclic());

    let body = vec![
        atom("R1", &["x", "y", "z"]),
        atom("R2", &["x", "y", "v"]),
        atom("R3", &["y", "z", "t"]),
        atom("R4", &["x", "y", "u"]),
        atom("R5", &["u", "w"]),
    ];
    let query = boolean_query(body);
    let hypergraph = Hypergraph::new(&query);
    assert!(hypergraph.is_acyclic());
    let jointree = query.construct_join_tree().unwrap();
    println!("{:?}", jointree);
}

#[test]
fn test_is_not_acyclic() {
    let body = vec![
        atom(
            "Beers",
            &["beer_id", "brew_id", "beer", "abv", "ibu", "ounces", "style", "style2"],
        ),
        atom("Styles", &["style_id", "cat_id", "style"]),
        atom("Categories", &["cat_id", "‘Belgian and French Ale’", "ounces"]),
    ];
    let query = boolean_query(body);
    let hypergraph = Hypergraph::new(&query);
    assert!(!hypergraph.is_acyclic());
}

#[test]
fn acyclic_shape_gives_four_edges_over_five_nodes() {
    let query = boolean_query(vec![
        atom("R1", &["x", "y", "z"]),
        atom("R2", &["x", "y", "v"]),
        atom("R3", &["y", "z", "t"]),
        atom("R4", &["x", "y", "u"]),
        atom("R5", &["u", "w"]),
    ]);
    assert!(query.is_acyclic());
    let tree = query.construct_join_tree().unwrap();
    assert_eq!(tree.get_nodes().len(), 5);
    let mut edges = 0;
    for node in tree.get_nodes() {
        edges += tree.get_children(&node).len();
    }
    assert_eq!(edges, 4);
    let root = tree.get_root().unwrap();
    assert!(tree.get_parent(&root).is_none());
    let mut parentless = 0;
    for node in tree.get_nodes() {
        if tree.get_parent(&node).is_none() {
            parentless += 1;
        }
    }
    assert_eq!(parentless, 1);
}

#[test]
fn triangle_is_cyclic_and_has_no_join_tree() {
    let query = boolean_query(vec![
        atom("R", &["x", "y"]),
        atom("S", &["y", "z"]),
        atom("T", &["z", "x"]),
    ]);
    assert!(!query.is_acyclic());
    assert!(query.construct_join_tree().is_none());
    assert!(!query_engine_acq::engine::is_acyclic(&query));
}

#[test]
fn acyclicity_agrees_with_join_tree() {
    let shapes = vec![
        vec![atom("R", &["x", "y"]), atom("S", &["y", "z"])],
        vec![atom("R", &["x", "y"]), atom("S", &["y", "z"]), atom("T", &["z", "x"])],
        vec![atom("R", &["x"]), atom("S", &["y"])],
        vec![atom("R", &["x", "y", "z"]), atom("S", &["x", "y"]), atom("T", &["y", "z"]), atom("U", &["x", "z"])],
    ];
    for body in shapes {
        let query = boolean_query(body);
        assert_eq!(query.is_acyclic(), query.construct_join_tree().is_some());
    }
}

#[test]
fn identical_atoms_collapse_to_one_node() {
    let query = boolean_query(vec![
        atom("R", &["x", "y"]),
        atom("R", &["x", "y"]),
        atom("S", &["y", "z"]),
    ]);
    let hypergraph = Hypergraph::new(&query);
    assert_eq!(hypergraph.hyperedges.len(), 2);
    let tree = query.construct_join_tree().unwrap();
    assert_eq!(tree.get_nodes().len(), 2);
}

#[test]
fn find_ear_reports_witness() {
    let query = boolean_query(vec![atom("R", &["x", "y"]), atom("S", &["y", "z"])]);
    let hypergraph = Hypergraph::new(&query);
    assert_eq!(hypergraph.find_ear(), Some((0, 1)));
    let lone = boolean_query(vec![atom("R", &["x"])]);
    assert_eq!(Hypergraph::new(&lone).find_ear(), Some((0, 0)));
    let triangle = boolean_query(vec![
        atom("R", &["x", "y"]),
        atom("S", &["y", "z"]),
        atom("T", &["z", "x"]),
    ]);
    assert_eq!(Hypergraph::new(&triangle).find_ear(), None);
}

#[test]
fn tree_selectors_follow_the_edges() {
    let query = boolean_query(vec![atom("R", &["x", "y"]), atom("S", &["y", "z"]), atom("T", &["z", "w"])]);
    let tree = query.construct_join_tree().unwrap();
    let nodes = tree.get_nodes();
    let leaf = tree.find_node_with_no_child_in_nodes(&nodes).unwrap();
    assert!(tree.is_leaf(&leaf));
    let top = tree.find_node_with_no_parent_in_nodes(&nodes).unwrap();
    assert_eq!(Some(top.clone()), tree.get_root());
    assert!(!tree.is_leaf(&top));
}

#[test]
fn removing_an_ear_keeps_acyclicity() {
    let query = boolean_query(vec![
        atom("R1", &["x", "y", "z"]),
        atom("R2", &["x", "y", "v"]),
        atom("R3", &["y", "z", "t"]),
        atom("R4", &["x", "y", "u"]),
        atom("R5", &["u", "w"]),
    ]);
    let full = Hypergraph::new(&query);
    assert!(full.is_acyclic());
    for ear in [1usize, 2, 4] {
        let mut edges = full.hyperedges.clone();
        edges.remove(ear);
        let rest = Hypergraph { hyperedges: edges };
        assert!(rest.is_acyclic());
    }
    let (first, _) = full.find_ear().unwrap();
    let mut edges = full.hyperedges.clone();
    edges.remove(first);
    assert!(Hypergraph { hyperedges: edges }.is_acyclic());
}

#[test]
fn descendants_follow_paths_of_edges() {
    let query = boolean_query(vec![atom("R", &["x", "y"]), atom("S", &["y", "z"]), atom("T", &["z", "w"])]);
    let tree = query.construct_join_tree().unwrap();
    let root = tree.get_root().unwrap();
    let below = tree.get_descendants(&root);
    assert_eq!(below.len(), 2);
    assert_eq!(tree.get_children(&root).len(), 1);
    let leaf = tree.find_node_with_no_child_in_nodes(&tree.get_nodes()).unwrap();
    assert!(tree.get_descendants(&leaf).is_empty());
    assert!(below.contains(&leaf));
}
