use query_engine_acq::algebra::{cartesian_product, join, select, semi_join};
use query_engine_acq::query::{Atom, Term};
use query_engine_acq::table::Table;

fn var(name: &str) -> Term {
    Term::Variable(name.to_string())
}

fn cons(value: &str) -> Term {
    Term::Constant(value.to_string())
}

fn atom(name: &str, terms: Vec<Term>) -> Atom {
    Atom {
        relation_name: name.to_string(),
        terms,
    }
}

fn table(name: &str, schema: &[&str], rows: &[&[Option<&str>]]) -> Table {
    Table {
        name: name.to_string(),
        schema: schema.iter().map(|s| s.to_string()).collect(),
        rows: rows
            .iter()
            .map(|r| r.iter().map(|c| c.map(|s| s.to_string())).collect())
            .collect(),
    }
}

fn cells(t: &Table) -> Vec<Vec<Option<String>>> {
    t.rows.clone()
}

fn sorted(mut rows: Vec<Vec<Option<String>>>) -> Vec<Vec<Option<String>>> {
    rows.sort();
    rows
}

#[test]
fn select_keeps_rows_matching_constants_and_repeated_variables() {
    let t = table(
        "r",
        &["a", "b", "c"],
        &[
            &[Some("1"), Some("1"), Some("k")],
            &[Some("1"), Some("2"), Some("k")],
            &[Some("3"), Some("3"), Some("j")],
            &[None, None, Some("k")],
        ],
    );
    let a = atom("r", vec![var("x"), var("x"), cons("k")]);
    let s = select(&a, &t);
    assert_eq!(s.schema, t.schema);
    assert_eq!(s.name, "r");
    assert_eq!(cells(&s), vec![vec![Some("1".to_string()), Some("1".to_string()), Some("k".to_string())]]);
}

#[test]
fn select_repeated_variable_over_three_positions() {
    let t = table(
        "r",
        &["a", "b", "c"],
        &[
            &[Some("1"), Some("1"), Some("1")],
            &[Some("1"), Some("1"), Some("2")],
            &[Some("2"), Some("1"), Some("2")],
        ],
    );
    let a = atom("r", vec![var("x"), var("y"), var("x")]);
    assert_eq!(select(&a, &t).rows.len(), 2);
    let b = atom("r", vec![var("x"), var("x"), var("x")]);
    assert_eq!(select(&b, &t).rows.len(), 1);
}

#[test]
fn select_is_idempotent() {
    let t = table(
        "r",
        &["a", "b"],
        &[&[Some("1"), Some("1")], &[Some("1"), Some("2")], &[Some("2"), Some("2")]],
    );
    let a = atom("r", vec![var("x"), var("x")]);
    let once = select(&a, &t);
    let twice = select(&a, &once);
    assert_eq!(cells(&once), cells(&twice));
    assert_eq!(once.rows.len(), 2);
}

#[test]
fn product_pairs_every_row() {
    let l = table("l", &["a"], &[&[Some("1")], &[Some("2")]]);
    let r = table("r", &["b", "c"], &[&[Some("x"), Some("y")], &[Some("z"), Some("w")]]);
    let p = cartesian_product(&l, &r);
    assert_eq!(p.name, "l_r");
    assert_eq!(p.schema, vec!["a", "b", "c"]);
    assert_eq!(p.rows.len(), 4);
    let expected = vec![
        vec![Some("1"), Some("x"), Some("y")],
        vec![Some("1"), Some("z"), Some("w")],
        vec![Some("2"), Some("x"), Some("y")],
        vec![Some("2"), Some("z"), Some("w")],
    ];
    let expected: Vec<Vec<Option<String>>> = expected
        .into_iter()
        .map(|r| r.into_iter().map(|c| c.map(|s| s.to_string())).collect())
        .collect();
    assert_eq!(sorted(cells(&p)), sorted(expected));
}

#[test]
fn product_with_empty_is_empty_with_merged_schema() {
    let t = table("t", &["a", "b"], &[&[Some("1"), Some("2")], &[Some("3"), Some("4")], &[Some("5"), Some("6")]]);
    let e = table("e", &["c"], &[]);
    let p = cartesian_product(&t, &e);
    assert_eq!(p.rows.len(), 0);
    assert_eq!(p.schema, vec!["a", "b", "c"]);
    let q = cartesian_product(&e, &t);
    assert_eq!(q.rows.len(), 0);
    assert_eq!(q.schema, vec!["c", "a", "b"]);
    let u = table("u", &["c"], &[&[Some("7")], &[Some("8")]]);
    assert_eq!(cartesian_product(&t, &u).rows.len(), 6);
}

#[test]
fn join_is_natural_join_on_shared_variables() {
    let l = table("r", &["x", "y"], &[&[Some("1"), Some("a")], &[Some("2"), Some("b")], &[Some("3"), None]]);
    let r = table("s", &["y", "z"], &[&[Some("a"), Some("p")], &[Some("a"), Some("q")], &[None, Some("n")]]);
    let la = atom("r", vec![var("x"), var("y")]);
    let ra = atom("s", vec![var("y"), var("z")]);
    let j = join(&la, &ra, &l, &r);
    assert_eq!(j.schema, vec!["x", "y", "z"]);
    assert_eq!(j.rows.len(), 2);
    let swapped = join(&ra, &la, &r, &l);
    assert_eq!(swapped.schema, vec!["y", "z", "x"]);
    let order = [&var("x"), &var("y"), &var("z")];
    let back = swapped.project(&order.iter().map(|t| (*t).clone()).collect::<Vec<_>>());
    assert_eq!(sorted(cells(&j)), sorted(cells(&back)));
}

#[test]
fn semi_join_keeps_left_schema_and_matching_rows() {
    let t = table("r", &["x", "y"], &[&[Some("1"), Some("a")], &[Some("2"), Some("b")]]);
    let u = table("s", &["y", "z"], &[&[Some("a"), Some("p")]]);
    let a = atom("r", vec![var("x"), var("y")]);
    let b = atom("s", vec![var("y"), var("z")]);
    let s = semi_join(&a, &b, &t, &u);
    assert_eq!(s.name, "r");
    assert_eq!(s.schema, t.schema);
    assert!(s.rows.len() <= t.rows.len());
    assert_eq!(cells(&s), vec![vec![Some("1".to_string()), Some("a".to_string())]]);
}

#[test]
fn semi_join_keeps_a_row_once_whatever_its_partners() {
    let t = table("r", &["x"], &[&[Some("1")], &[Some("2")]]);
    let u = table("s", &["x", "z"], &[&[Some("1"), Some("p")], &[Some("1"), Some("q")]]);
    let a = atom("r", vec![var("x")]);
    let b = atom("s", vec![var("x"), var("z")]);
    let s = semi_join(&a, &b, &t, &u);
    assert_eq!(s.rows, vec![vec![Some("1".to_string())]]);
}

#[test]
fn intersection_filters_by_first_column() {
    let a = table("a", &["k", "v"], &[&[Some("1"), Some("x")], &[Some("2"), Some("y")], &[Some("1"), Some("z")], &[None, Some("w")]]);
    let b = table("b", &["k", "v"], &[&[Some("1"), Some("q")], &[None, Some("r")]]);
    let i = a.intersection(&b);
    assert_eq!(i.name, "a");
    assert_eq!(i.rows.len(), 2);
    assert!(i.rows.iter().all(|r| r[0] == Some("1".to_string())));
}

#[test]
fn project_by_name_and_position() {
    let t = table("t", &["x", "abv", "y"], &[&[Some("1"), Some("0.5"), Some("2")]]);
    let p = t.project_available(&[var("y"), cons("0.5"), var("x"), var("missing")]);
    assert_eq!(t.project(&[var("y"), cons("0.5"), var("x")]).schema, p.schema);
    assert_eq!(p.schema, vec!["y", "abv", "x"]);
    assert_eq!(cells(&p), vec![vec![Some("2".to_string()), Some("0.5".to_string()), Some("1".to_string())]]);
    let q = t.projection(&vec![2, 2, 0]);
    assert_eq!(q.schema, vec!["y", "y", "x"]);
}

#[test]
fn table_accessors() {
    let mut t = table("t", &["a", "b"], &[&[Some("1"), None]]);
    assert!(!t.is_empty());
    assert_eq!(t.get_column(&1), Some(vec![None]));
    assert_eq!(t.get_column(&2), None);
    t.set_name("u");
    assert_eq!(t.name, "u");
    assert!(Table::new_empty("e".to_string()).is_empty());
}

#[test]
fn union_and_merge_of_atoms() {
    let a = atom("r", vec![var("x"), var("y"), var("x")]);
    let b = atom("s", vec![var("y"), var("z"), var("z")]);
    assert_eq!(Atom::union(&a, &b), vec![var("x"), var("y"), var("x"), var("z")]);
    let m = Atom::merge(&a, &b);
    assert_eq!(m.relation_name, "r_s");
    assert_eq!(m.terms.len(), 6);
}

#[test]
fn join_commutes_up_to_column_order() {
    let l = table("r", &["x", "y"], &[&[Some("1"), Some("a")], &[Some("2"), Some("a")], &[Some("3"), Some("b")]]);
    let r = table("s", &["y", "z"], &[&[Some("a"), Some("p")], &[Some("b"), Some("q")], &[Some("c"), Some("n")]]);
    let la = atom("r", vec![var("x"), var("y")]);
    let ra = atom("s", vec![var("y"), var("z")]);
    let u = Atom::union(&la, &ra);
    let one = join(&la, &ra, &l, &r).project(&u);
    let other = join(&ra, &la, &r, &l).project(&u);
    assert_eq!(one.rows.len(), 3);
    assert_eq!(sorted(cells(&one)), sorted(cells(&other)));
}
