use vstd::prelude::*;

use crate::algebra::{join, join_v, select, select_v, semi_join, semi_join_v};
use crate::database::{Database, is_relation, rename_v, same_text};
use crate::hypergraph::{gyo_edges, query_hyperedges, query_is_acyclic};
use crate::join_tree::{JoinTree, children_v, first_no_child_from, first_no_parent_from, first_root_from, parent_v};
use crate::query::{Atom, AtomV, Query, QueryV, Term, TermV, atoms_v, clone_terms, terms_v, union_terms};
use crate::table::{Table, TableV, intersection_v, project_v, vars_named, vars_named_in};

verus! {

/// Why an evaluation stopped.
#[derive(Debug)]
pub enum EvalError {
    /// An atom names a relation that the database does not have.
    TableNotFound(String),
    /// A table does not have the columns that its atom describes.
    ColumnLookup(String),
}

/// Whether `name` is one of the relations of the database.
pub fn relation_known(name: &str) -> (r: bool)
    ensures
        r == is_relation(name@),
{
    same_text(name, "beers") || same_text(name, "breweries") || same_text(name, "categories")
        || same_text(name, "locations") || same_text(name, "styles")
}

/// The fold of Step 3 over the children of `s`: starting from `q_s`, keep the rows whose first
/// cell occurs in the semi-join of `s` with each child in turn.
pub open spec fn reduce_v(
    s: AtomV,
    q_s: TableV,
    children: Seq<AtomV>,
    db: Map<Seq<char>, TableV>,
) -> TableV
    decreases children.len(),
{
    if children.len() == 0 {
        q_s
    } else {
        let c = children.last();
        intersection_v(
            reduce_v(s, q_s, children.drop_last(), db),
            semi_join_v(s, c, q_s, db[c.name]),
        )
    }
}

/// The fold of Step 3 can be carried out for a child: its relation exists with one attribute
/// per term, each variable of `s` names a column, and its semi-join with `s` keeps a column to
/// compare.
pub open spec fn child_fits(
    s: AtomV,
    q_s: TableV,
    c: AtomV,
    db: Map<Seq<char>, TableV>,
) -> bool {
    &&& is_relation(c.name)
    &&& c.terms.len() == db[c.name].schema.len()
    &&& q_s.schema.len() >= 1
    &&& vars_named(s.terms, q_s.schema)
    &&& semi_join_v(s, c, q_s, db[c.name]).schema.len() >= 1
}

/// Step 4 at node `s`: for each child `c` in turn, the table of `c` becomes the semi-join of
/// its reduced table `q[c]` with the current table of `s`. `None` when a relation is missing
/// or a table does not have the columns its atom describes.
pub open spec fn pre_children_v(
    s: AtomV,
    cs: Seq<AtomV>,
    q: Map<Seq<char>, TableV>,
    a: Map<Seq<char>, TableV>,
) -> Option<Map<Seq<char>, TableV>>
    decreases cs.len(),
{
    if cs.len() == 0 {
        Some(a)
    } else {
        match pre_children_v(s, cs.drop_last(), q, a) {
            None => None,
            Some(a1) => {
                let c = cs.last();
                if !(is_relation(c.name) && is_relation(s.name) && c.terms.len() == q[c.name].schema.len()
                    && s.terms.len() == a1[s.name].schema.len() && vars_named(c.terms, q[c.name].schema)) {
                    None
                } else {
                    let sj = semi_join_v(c, s, q[c.name], a1[s.name]);
                    Some(a1.insert(c.name, TableV { name: a1[c.name].name, schema: sj.schema, rows: sj.rows }))
                }
            },
        }
    }
}

/// Step 4 over the pending `nodes`: take the first node whose parent is not pending, update its
/// children (`pre_children_v`), and go on without it.
pub open spec fn pre_order_v(
    edges: Seq<(AtomV, AtomV)>,
    q: Map<Seq<char>, TableV>,
    a: Map<Seq<char>, TableV>,
    nodes: Seq<AtomV>,
) -> Option<Map<Seq<char>, TableV>>
    decreases nodes.len(),
{
    if nodes.len() == 0 {
        Some(a)
    } else {
        match first_no_parent_from(edges, nodes, 0) {
            None => Some(a),
            Some(s) => match pre_children_v(s, children_v(edges, s), q, a) {
                None => None,
                Some(a2) => {
                    let rest = remove_first(nodes, s);
                    if rest.len() < nodes.len() {
                        pre_order_v(edges, q, a2, rest)
                    } else {
                        Some(a2)
                    }
                },
            },
        }
    }
}

/// Once a prefix of the children fails in Step 5, the whole of them fails.
pub proof fn lemma_join_children_none(
    head: Seq<TermV>,
    s: AtomV,
    cs: Seq<AtomV>,
    o: Map<Seq<char>, TableV>,
    k: int,
)
    requires
        0 <= k <= cs.len(),
        join_children_v(head, s, cs.take(k), o) is None,
    ensures
        join_children_v(head, s, cs, o) is None,
    decreases cs.len() - k,
{
    if k < cs.len() {
        assert(cs.take(k + 1).drop_last() =~= cs.take(k));
        lemma_join_children_none(head, s, cs, o, k + 1);
    } else {
        assert(cs.take(k) =~= cs);
    }
}

/// Once a prefix of the children fails, the whole of them fails.
pub proof fn lemma_pre_children_none(
    s: AtomV,
    cs: Seq<AtomV>,
    q: Map<Seq<char>, TableV>,
    a: Map<Seq<char>, TableV>,
    k: int,
)
    requires
        0 <= k <= cs.len(),
        pre_children_v(s, cs.take(k), q, a) is None,
    ensures
        pre_children_v(s, cs, q, a) is None,
    decreases cs.len() - k,
{
    if k < cs.len() {
        assert(cs.take(k + 1).drop_last() =~= cs.take(k));
        lemma_pre_children_none(s, cs, q, a, k + 1);
    } else {
        assert(cs.take(k) =~= cs);
    }
}

/// The answer of the boolean evaluation: over the renamed database, run Step 3 on the join
/// tree of the body and tell whether the table of the root keeps a row; `false` without a
/// root, `None` when Step 3 stops.
pub open spec fn boolean_answer_v(q: QueryV, db: Map<Seq<char>, TableV>) -> Option<bool> {
    let h = query_hyperedges(q.body);
    let e = gyo_edges(h);
    match first_root_from(e, h, 0) {
        None => Some(false),
        Some(root) => match post_order_v(e, rename_v(db, q.body), h) {
            None => None,
            Some(m) => Some(m[root.name].rows.len() > 0),
        },
    }
}

/// The root found is one of the nodes.
pub proof fn lemma_first_root_member(e: Seq<(AtomV, AtomV)>, h: Seq<AtomV>, k: int)
    requires
        0 <= k,
    ensures
        first_root_from(e, h, k) matches Some(x) ==> h.contains(x),
    decreases h.len() - k,
{
    if k < h.len() {
        lemma_first_root_member(e, h, k + 1);
        if parent_v(e, h[k]) is None {
            assert(h.contains(h[k]));
        }
    }
}

/// Whether a table has one attribute per term of an atom.
fn fits(atom: &Atom, table: &Table) -> (r: bool)
    ensures
        r == (atom@.terms.len() == table@.schema.len()),
{
    atom.terms.len() == table.schema.len()
}

/// `s` without the first occurrence of `a`.
pub open spec fn remove_first(s: Seq<AtomV>, a: AtomV) -> Seq<AtomV>
    decreases s.len(),
{
    if s.len() == 0 {
        s
    } else if s[0] == a {
        s.drop_first()
    } else {
        seq![s[0]] + remove_first(s.drop_first(), a)
    }
}

/// Removing the first occurrence, found at position `i`, is removing position `i`.
pub proof fn lemma_remove_first(s: Seq<AtomV>, a: AtomV, i: int)
    requires
        0 <= i <= s.len(),
        forall|j: int| 0 <= j < i ==> s[j] != a,
    ensures
        i < s.len() && s[i] == a ==> remove_first(s, a) == s.remove(i),
        i == s.len() ==> remove_first(s, a) == s,
    decreases i,
{
    if s.len() > 0 {
        if i > 0 {
            lemma_remove_first(s.drop_first(), a, i - 1);
            if i < s.len() && s[i] == a {
                assert(seq![s[0]] + s.drop_first().remove(i - 1) =~= s.remove(i));
            }
            if i == s.len() {
                assert(seq![s[0]] + s.drop_first() =~= s);
            }
        }
    }
}

/// Removes the first occurrence of `a` from `nodes`, if there is one.
fn remove_node(nodes: &mut Vec<Atom>, a: &Atom) -> (removed: bool)
    ensures
        atoms_v(final(nodes)@) == remove_first(atoms_v(old(nodes)@), a@),
        removed ==> final(nodes).len() == old(nodes).len() - 1,
        !removed ==> final(nodes).len() == old(nodes).len(),
{
    let ghost s = atoms_v(nodes@);
    let mut i: usize = 0;
    while i < nodes.len()
        invariant
            s == atoms_v(old(nodes)@),
            nodes@ == old(nodes)@,
            i <= nodes.len(),
            forall|j: int| 0 <= j < i ==> s[j] != a@,
        decreases nodes.len() - i,
    {
        assert(s[i as int] == nodes@[i as int]@);
        if nodes[i] == *a {
            proof {
                lemma_remove_first(s, a@, i as int);
            }
            let ghost before = nodes@;
            nodes.remove(i);
            assert(atoms_v(nodes@) =~= s.remove(i as int));
            return true;
        }
        i = i + 1;
    }
    proof {
        lemma_remove_first(s, a@, i as int);
    }
    false
}

/// Step 3 over the pending `nodes`: take the first node none of whose children is pending,
/// replace the table of its relation by the rows that satisfy it and join with each child
/// (`reduce_v`), and go on without it. `None` when a relation is missing or a table does not
/// have the columns its atom describes.
pub open spec fn post_order_v(
    edges: Seq<(AtomV, AtomV)>,
    db: Map<Seq<char>, TableV>,
    nodes: Seq<AtomV>,
) -> Option<Map<Seq<char>, TableV>>
    decreases nodes.len(),
{
    if nodes.len() == 0 {
        Some(db)
    } else {
        match first_no_child_from(edges, nodes, 0) {
            None => Some(db),
            Some(s) => {
                if !(is_relation(s.name) && s.terms.len() == db[s.name].schema.len()) {
                    None
                } else {
                    let q_s = select_v(s, db[s.name]);
                    let cs = children_v(edges, s);
                    if !(forall|k: int| 0 <= k < cs.len() ==> child_fits(s, q_s, #[trigger] cs[k], db)) {
                        None
                    } else {
                        let red = reduce_v(s, q_s, cs, db);
                        let next = db.insert(
                            s.name,
                            TableV { name: db[s.name].name, schema: red.schema, rows: red.rows },
                        );
                        let rest = remove_first(nodes, s);
                        if rest.len() < nodes.len() {
                            post_order_v(edges, next, rest)
                        } else {
                            Some(next)
                        }
                    }
                }
            },
        }
    }
}

/// The atom whose terms parallel the columns of `table`: the terms of `s` for its first
/// columns, then a variable for each further column, named after it.
fn current_atom(s: &Atom, table: &Table) -> (r: Atom)
    requires
        s@.terms.len() <= table@.schema.len(),
    ensures
        r@ == current_atom_v(s@, table@),
{
    let ghost extra = table@.schema.subrange(s@.terms.len() as int, table@.schema.len() as int).map_values(
        |n: Seq<char>| TermV::Variable(n),
    );
    let mut terms = clone_terms(&s.terms);
    let mut i: usize = s.terms.len();
    while i < table.schema.len()
        invariant
            s@.terms.len() <= i <= table.schema.len(),
            extra == table@.schema.subrange(s@.terms.len() as int, table@.schema.len() as int).map_values(
                |n: Seq<char>| TermV::Variable(n),
            ),
            terms_v(terms@) == s@.terms + extra.take(i - s@.terms.len()),
        decreases table.schema.len() - i,
    {
        let ghost before = terms_v(terms@);
        let name = table.schema[i].clone();
        assert(name@ == table@.schema[i as int]);
        terms.push(Term::Variable(name));
        assert(terms_v(terms@) =~= before.push(TermV::Variable(table@.schema[i as int])));
        assert(extra[i - s@.terms.len()] == TermV::Variable(table@.schema[i as int]));
        assert(terms_v(terms@) =~= s@.terms + extra.take(i + 1 - s@.terms.len()));
        i = i + 1;
    }
    assert(extra.take(table.schema.len() - s@.terms.len()) =~= extra);
    Atom { relation_name: s.relation_name.clone(), terms }
}

/// The atom whose terms parallel the columns of `t`: the terms of `s` for its first columns,
/// then a variable named after each further attribute.
pub open spec fn current_atom_v(s: AtomV, t: TableV) -> AtomV {
    AtomV {
        name: s.name,
        terms: s.terms + t.schema.subrange(s.terms.len() as int, t.schema.len() as int).map_values(
            |n: Seq<char>| TermV::Variable(n),
        ),
    }
}

/// The atom that parallels a table's columns names only columns of the table, when the
/// variables of `s` do.
pub proof fn lemma_current_atom_named(s: AtomV, t: TableV)
    requires
        s.terms.len() <= t.schema.len(),
        vars_named(s.terms, t.schema),
    ensures
        vars_named(current_atom_v(s, t).terms, t.schema),
{
    let ts = current_atom_v(s, t).terms;
    assert forall|i: int| 0 <= i < ts.len() && (#[trigger] ts[i]) is Variable implies t.schema.contains(ts[i]->Variable_0) by {
        if i < s.terms.len() {
            assert(ts[i] == s.terms[i]);
        } else {
            assert(ts[i] == TermV::Variable(t.schema[i]));
        }
    }
}

/// Step 5 at node `s`: for each child in turn, join the table of `s` with the child's, under
/// the atoms that parallel their columns, and keep the columns of `s` and of the head.
pub open spec fn join_children_v(
    head: Seq<TermV>,
    s: AtomV,
    cs: Seq<AtomV>,
    o: Map<Seq<char>, TableV>,
) -> Option<Map<Seq<char>, TableV>>
    decreases cs.len(),
{
    if cs.len() == 0 {
        Some(o)
    } else {
        match join_children_v(head, s, cs.drop_last(), o) {
            None => None,
            Some(o1) => {
                let c = cs.last();
                if !(is_relation(s.name) && is_relation(c.name) && s.terms.len() <= o1[s.name].schema.len()
                    && c.terms.len() <= o1[c.name].schema.len() && vars_named(s.terms, o1[s.name].schema)
                    && vars_named(c.terms, o1[c.name].schema)) {
                    None
                } else {
                    let j = join_v(
                        current_atom_v(s, o1[s.name]),
                        current_atom_v(c, o1[c.name]),
                        o1[s.name],
                        o1[c.name],
                    );
                    let p = project_v(union_terms(s.terms, head), j);
                    Some(o1.insert(s.name, TableV { name: o1[s.name].name, schema: p.schema, rows: p.rows }))
                }
            },
        }
    }
}

/// Step 5 over the pending `nodes`: take the first node none of whose children is pending, join
/// it with its children (`join_children_v`), and go on without it.
pub open spec fn join_pass_v(
    edges: Seq<(AtomV, AtomV)>,
    head: Seq<TermV>,
    o: Map<Seq<char>, TableV>,
    nodes: Seq<AtomV>,
) -> Option<Map<Seq<char>, TableV>>
    decreases nodes.len(),
{
    if nodes.len() == 0 {
        Some(o)
    } else {
        match first_no_child_from(edges, nodes, 0) {
            None => Some(o),
            Some(s) => match join_children_v(head, s, children_v(edges, s), o) {
                None => None,
                Some(o2) => {
                    let rest = remove_first(nodes, s);
                    if rest.len() < nodes.len() {
                        join_pass_v(edges, head, o2, rest)
                    } else {
                        Some(o2)
                    }
                },
            },
        }
    }
}

/// The answer of an acyclic query that is not boolean: over the renamed database, Steps 3 to 5
/// on the join tree of the body, then the projection of the root's table onto the head. A table
/// with no attributes when the tree has no root; `None` when a step stops.
pub open spec fn answer_v(q: QueryV, db: Map<Seq<char>, TableV>) -> Option<TableV> {
    let h = query_hyperedges(q.body);
    let e = gyo_edges(h);
    match post_order_v(e, rename_v(db, q.body), h) {
        None => None,
        Some(qd) => match pre_order_v(e, qd, qd, h) {
            None => None,
            Some(ad) => match join_pass_v(e, q.head.terms, ad, h) {
                None => None,
                Some(od) => match first_root_from(e, h, 0) {
                    None => Some(TableV { name: q.head.name, schema: Seq::empty(), rows: Seq::empty() }),
                    Some(root) => if vars_named(q.head.terms, od[root.name].schema) {
                        Some(project_v(q.head.terms, od[root.name]))
                    } else {
                        None
                    },
                },
            },
        },
    }
}

impl Query {
    /// The rows of the relation of `atom` that satisfy it.
    fn compute_atom(&self, atom: &Atom, database: &Database) -> (r: Result<Table, EvalError>)
        requires
            database.wf(),
        ensures
            r is Ok <==> is_relation(atom@.name) && atom@.terms.len() == database@[atom@.name].schema.len(),
            r matches Ok(t) ==> t@ == select_v(atom@, database@[atom@.name]) && t.wf(),
    {
        if !relation_known(atom.relation_name.as_str()) {
            return Err(EvalError::TableNotFound(atom.relation_name.clone()));
        }
        let node_table = database.get_table(atom.relation_name.as_str());
        if !fits(atom, node_table) {
            return Err(EvalError::ColumnLookup(atom.relation_name.clone()));
        }
        Ok(select(atom, node_table))
    }

    /// Step 3 at one node: starting from `q_s`, keep the rows whose first cell occurs in the
    /// semi-join of `s` with the table of each child, in order.
    pub fn reduce_node(s: &Atom, q_s: &Table, children: &Vec<Atom>, database: &Database) -> (r: Result<
        Table,
        EvalError,
    >)
        requires
            database.wf(),
            q_s.wf(),
            q_s@.schema.len() == s@.terms.len(),
        ensures
            r is Ok <==> forall|k: int|
                0 <= k < children.len() ==> child_fits(s@, q_s@, #[trigger] atoms_v(children@)[k], database@),
            r matches Ok(t) ==> t@ == reduce_v(s@, q_s@, atoms_v(children@), database@) && t.wf(),
    {
        let ghost cs = atoms_v(children@);
        let mut acc = q_s.clone();
        let mut k: usize = 0;
        while k < children.len()
            invariant
                database.wf(),
                q_s.wf(),
                q_s@.schema.len() == s@.terms.len(),
                cs == atoms_v(children@),
                k <= children.len(),
                forall|j: int| 0 <= j < k ==> child_fits(s@, q_s@, #[trigger] cs[j], database@),
                acc@ == reduce_v(s@, q_s@, cs.take(k as int), database@),
                acc.wf(),
                acc@.schema == q_s@.schema,
            decreases children.len() - k,
        {
            let c = &children[k];
            assert(cs[k as int] == c@);
            assert(cs.take(k + 1).drop_last() =~= cs.take(k as int));
            if !relation_known(c.relation_name.as_str()) {
                return Err(EvalError::TableNotFound(c.relation_name.clone()));
            }
            let t_c = database.get_table(c.relation_name.as_str());
            if !fits(c, t_c) || !vars_named_in(&s.terms, q_s) {
                return Err(EvalError::ColumnLookup(c.relation_name.clone()));
            }
            let sj = semi_join(s, c, q_s, t_c);
            if q_s.schema.len() == 0 || sj.schema.len() == 0 {
                return Err(EvalError::ColumnLookup(s.relation_name.clone()));
            }
            acc = acc.intersection(&sj);
            k = k + 1;
        }
        assert(cs.take(children.len() as int) =~= cs);
        Ok(acc)
    }

    /// Step 3: visiting each node after its children, replaces its table by the rows that
    /// satisfy it and join with every child's reduced table.
    pub fn remove_dangling_tuple_post_order(&self, join_tree: &JoinTree, db: &Database) -> (r: Result<
        Database,
        EvalError,
    >)
        requires
            db.wf(),
        ensures
            r is Ok <==> post_order_v(join_tree@.edges, db@, join_tree@.nodes) is Some,
            r matches Ok(d) ==> d@ == post_order_v(join_tree@.edges, db@, join_tree@.nodes)->0 && d.wf(),
    {
        let ghost edges = join_tree@.edges;
        let ghost target = post_order_v(edges, db@, join_tree@.nodes);
        let mut big_q = db.clone();
        let mut nodes = join_tree.get_nodes();
        loop
            invariant_except_break
                post_order_v(edges, big_q@, atoms_v(nodes@)) == target,
            invariant
                edges == join_tree@.edges,
                target == post_order_v(edges, db@, join_tree@.nodes),
                big_q.wf(),
            ensures
                big_q.wf(),
                target == Some(big_q@),
            decreases nodes.len(),
        {
            if nodes.len() == 0 {
                assert(atoms_v(nodes@).len() == 0);
                break;
            }
            let s = match join_tree.find_node_with_no_child_in_nodes(&nodes) {
                Some(s) => s,
                None => break,
            };
            let ghost pending = atoms_v(nodes@);
            assert(first_no_child_from(edges, pending, 0) == Some(s@));
            let q_s = match self.compute_atom(&s, &big_q) {
                Ok(t) => t,
                Err(e) => {
                    assert(post_order_v(edges, big_q@, pending) is None);
                    return Err(e);
                },
            };
            let children = join_tree.get_children(&s);
            let reduced = match Self::reduce_node(&s, &q_s, &children, &big_q) {
                Ok(t) => t,
                Err(e) => {
                    assert(!(forall|k: int|
                        0 <= k < children_v(edges, s@).len() ==> child_fits(s@, q_s@, #[trigger] children_v(edges, s@)[k], big_q@)));
                    assert(post_order_v(edges, big_q@, pending) is None);
                    return Err(e);
                },
            };
            let ghost before = big_q@;
            big_q.set_table(s.relation_name.as_str(), reduced);
            if !remove_node(&mut nodes, &s) {
                assert(remove_first(pending, s@).len() == pending.len());
                assert(post_order_v(edges, before, pending) == Some(big_q@));
                break;
            }
        }
        Ok(big_q)
    }

    /// Step 4: visiting each node after its parent, replaces each child's table by its
    /// semi-join, from the reduced tables, with the node's table.
    pub fn remove_dangling_tuple_pre_order(&self, join_tree: &JoinTree, db: &Database) -> (r: Result<
        Database,
        EvalError,
    >)
        requires
            db.wf(),
        ensures
            r is Ok <==> pre_order_v(join_tree@.edges, db@, db@, join_tree@.nodes) is Some,
            r matches Ok(d) ==> d@ == pre_order_v(join_tree@.edges, db@, db@, join_tree@.nodes)->0 && d.wf(),
    {
        let ghost edges = join_tree@.edges;
        let ghost target = pre_order_v(edges, db@, db@, join_tree@.nodes);
        let mut a_database = db.clone();
        let mut nodes = join_tree.get_nodes();
        loop
            invariant_except_break
                pre_order_v(edges, db@, a_database@, atoms_v(nodes@)) == target,
            invariant
                edges == join_tree@.edges,
                target == pre_order_v(edges, db@, db@, join_tree@.nodes),
                a_database.wf(),
                db.wf(),
            ensures
                a_database.wf(),
                target == Some(a_database@),
            decreases nodes.len(),
        {
            if nodes.len() == 0 {
                assert(atoms_v(nodes@).len() == 0);
                break;
            }
            let s = match join_tree.find_node_with_no_parent_in_nodes(&nodes) {
                Some(s) => s,
                None => break,
            };
            let ghost pending = atoms_v(nodes@);
            let ghost start = a_database@;
            let children = join_tree.get_children(&s);
            let ghost cs = atoms_v(children@);
            assert(cs == children_v(edges, s@));
            assert(cs.take(0) =~= Seq::<AtomV>::empty());
            let mut k: usize = 0;
            while k < children.len()
                invariant
                    a_database.wf(),
                    db.wf(),
                    k <= children.len(),
                    cs == atoms_v(children@),
                    cs == children_v(edges, s@),
                    pending.len() > 0,
                    first_no_parent_from(edges, pending, 0) == Some(s@),
                    pre_order_v(edges, db@, start, pending) == target,
                    target == pre_order_v(edges, db@, db@, join_tree@.nodes),
                    edges == join_tree@.edges,
                    pre_children_v(s@, cs.take(k as int), db@, start) == Some(a_database@),
                decreases children.len() - k,
            {
                let c = &children[k];
                assert(cs[k as int] == c@);
                assert(cs.take(k + 1).drop_last() =~= cs.take(k as int));
                if !relation_known(c.relation_name.as_str()) {
                    proof {
                        lemma_pre_children_none(s@, cs, db@, start, k + 1);
                    }
                    assert(pre_order_v(edges, db@, start, pending) is None);
                    return Err(EvalError::TableNotFound(c.relation_name.clone()));
                }
                if !relation_known(s.relation_name.as_str()) {
                    proof {
                        lemma_pre_children_none(s@, cs, db@, start, k + 1);
                    }
                    assert(pre_order_v(edges, db@, start, pending) is None);
                    return Err(EvalError::TableNotFound(s.relation_name.clone()));
                }
                let q_c = db.get_table(c.relation_name.as_str());
                let a_s = a_database.get_table(s.relation_name.as_str());
                if !fits(c, q_c) || !fits(&s, a_s) || !vars_named_in(&c.terms, q_c) {
                    proof {
                        lemma_pre_children_none(s@, cs, db@, start, k + 1);
                    }
                    assert(pre_order_v(edges, db@, start, pending) is None);
                    return Err(EvalError::ColumnLookup(c.relation_name.clone()));
                }
                let a_c = semi_join(c, &s, q_c, a_s);
                a_database.set_table(c.relation_name.as_str(), a_c);
                k = k + 1;
            }
            assert(cs.take(children.len() as int) =~= cs);
            let ghost after = a_database@;
            if !remove_node(&mut nodes, &s) {
                assert(pre_order_v(edges, db@, start, pending) == Some(after));
                break;
            }
        }
        Ok(a_database)
    }

    /// Steps 3 and 4: the database without dangling rows.
    fn construct_consistent_db(&self, join_tree: &JoinTree, database: &Database) -> (r: Result<
        Database,
        EvalError,
    >)
        requires
            database.wf(),
        ensures
            r is Ok <==> (post_order_v(join_tree@.edges, database@, join_tree@.nodes) matches Some(qd)
                && pre_order_v(join_tree@.edges, qd, qd, join_tree@.nodes) is Some),
            r matches Ok(d) ==> d.wf() && d@ == pre_order_v(
                join_tree@.edges,
                post_order_v(join_tree@.edges, database@, join_tree@.nodes)->0,
                post_order_v(join_tree@.edges, database@, join_tree@.nodes)->0,
                join_tree@.nodes,
            )->0,
    {
        let big_q = match self.remove_dangling_tuple_post_order(join_tree, database) {
            Ok(d) => d,
            Err(e) => return Err(e),
        };
        self.remove_dangling_tuple_pre_order(join_tree, &big_q)
    }

    /// Step 5 at one node: joins its table with each child's, keeping the columns of the node
    /// and of the head.
    fn join_children(&self, s: &Atom, children: &Vec<Atom>, o_database: &mut Database) -> (r: Result<
        (),
        EvalError,
    >)
        requires
            old(o_database).wf(),
        ensures
            final(o_database).wf(),
            r is Ok <==> join_children_v(self@.head.terms, s@, atoms_v(children@), old(o_database)@) is Some,
            r is Ok ==> final(o_database)@ == join_children_v(self@.head.terms, s@, atoms_v(children@), old(o_database)@)->0,
    {
        let ghost cs = atoms_v(children@);
        let ghost start = o_database@;
        let union = Atom::union(s, &self.head);
        assert(cs.take(0) =~= Seq::<AtomV>::empty());
        let mut k: usize = 0;
        while k < children.len()
            invariant
                o_database.wf(),
                k <= children.len(),
                cs == atoms_v(children@),
                start == old(o_database)@,
                terms_v(union@) == union_terms(s@.terms, self@.head.terms),
                join_children_v(self@.head.terms, s@, cs.take(k as int), start) == Some(o_database@),
            decreases children.len() - k,
        {
            let c = &children[k];
            assert(cs[k as int] == c@);
            assert(cs.take(k + 1).drop_last() =~= cs.take(k as int));
            if !relation_known(s.relation_name.as_str()) || !relation_known(c.relation_name.as_str()) {
                proof {
                    lemma_join_children_none(self@.head.terms, s@, cs, start, k + 1);
                }
                return Err(EvalError::TableNotFound(s.relation_name.clone()));
            }
            let o_s = o_database.get_table(s.relation_name.as_str());
            let o_c = o_database.get_table(c.relation_name.as_str());
            if s.terms.len() > o_s.schema.len() || c.terms.len() > o_c.schema.len() || !vars_named_in(&s.terms, o_s)
                || !vars_named_in(&c.terms, o_c) {
                proof {
                    lemma_join_children_none(self@.head.terms, s@, cs, start, k + 1);
                }
                return Err(EvalError::ColumnLookup(s.relation_name.clone()));
            }
            let left = current_atom(s, o_s);
            let right = current_atom(c, o_c);
            proof {
                lemma_current_atom_named(s@, o_s@);
                lemma_current_atom_named(c@, o_c@);
            }
            let joined = join(&left, &right, o_s, o_c);
            let o_new = joined.project_available(union.as_slice());
            o_database.set_table(s.relation_name.as_str(), o_new);
            k = k + 1;
        }
        assert(cs.take(children.len() as int) =~= cs);
        Ok(())
    }

    /// The answers of the query over the database, by the Yannakakis algorithm. The database is
    /// not changed: the evaluation works on a renamed copy.
    pub fn yannakakis(&self, database: &Database) -> (r: Result<Table, EvalError>)
        requires
            database.wf(),
        ensures
            (r matches Err(EvalError::TableNotFound(_))) <==> exists|k: int|
                0 <= k < self@.body.len() && !is_relation(#[trigger] self@.body[k].name),
            (forall|k: int| 0 <= k < self@.body.len() ==> is_relation(#[trigger] self@.body[k].name))
                && (self@.head.terms.len() == 0 || !query_is_acyclic(self@.body)) ==> (r matches Ok(t)
                && t@ == (TableV { name: self@.head.name, schema: Seq::empty(), rows: Seq::empty() })),
            (forall|k: int| 0 <= k < self@.body.len() ==> is_relation(#[trigger] self@.body[k].name))
                && self@.head.terms.len() != 0 && query_is_acyclic(self@.body) ==> match answer_v(self@, database@) {
                Some(a) => r matches Ok(t) && t@ == a,
                None => r matches Err(EvalError::ColumnLookup(_)),
            },
            r matches Ok(t) ==> t.wf(),
    {
        let mut k: usize = 0;
        while k < self.body.len()
            invariant
                k <= self.body.len(),
                forall|j: int| 0 <= j < k ==> is_relation(#[trigger] self@.body[j].name),
            decreases self.body.len() - k,
        {
            assert(self@.body[k as int] == self.body@[k as int]@);
            if !relation_known(self.body[k].relation_name.as_str()) {
                assert(!is_relation(self@.body[k as int].name));
                return Err(EvalError::TableNotFound(self.body[k].relation_name.clone()));
            }
            k = k + 1;
        }
        let mut renamed = database.clone();
        renamed.rename(self);
        if self.is_boolean() {
            return Ok(Table::new_empty(self.head.relation_name.clone()));
        }
        let join_tree = match self.construct_join_tree() {
            Some(t) => t,
            None => return Ok(Table::new_empty(self.head.relation_name.clone())),
        };
        let ghost edges = join_tree@.edges;
        let ghost head_terms = self@.head.terms;
        let mut o_database = match self.construct_consistent_db(&join_tree, &renamed) {
            Ok(d) => d,
            Err(e) => return Err(EvalError::ColumnLookup(error_relation(e))),
        };
        let ghost o0 = o_database@;
        let ghost target = join_pass_v(edges, head_terms, o0, join_tree@.nodes);
        let mut nodes = join_tree.get_nodes();
        loop
            invariant_except_break
                join_pass_v(edges, head_terms, o_database@, atoms_v(nodes@)) == target,
            invariant
                o_database.wf(),
                edges == join_tree@.edges,
                head_terms == self@.head.terms,
                target == join_pass_v(edges, head_terms, o0, join_tree@.nodes),
                join_tree@.nodes == query_hyperedges(self@.body),
                edges == gyo_edges(join_tree@.nodes),
                post_order_v(edges, rename_v(database@, self@.body), join_tree@.nodes) matches Some(qd)
                    && pre_order_v(edges, qd, qd, join_tree@.nodes) == Some(o0),
                forall|j: int| 0 <= j < self@.body.len() ==> is_relation(#[trigger] self@.body[j].name),
                self@.head.terms.len() != 0,
                query_is_acyclic(self@.body),
            ensures
                o_database.wf(),
                target == Some(o_database@),
            decreases nodes.len(),
        {
            if nodes.len() == 0 {
                assert(atoms_v(nodes@).len() == 0);
                break;
            }
            let s = match join_tree.find_node_with_no_child_in_nodes(&nodes) {
                Some(s) => s,
                None => break,
            };
            let ghost pending = atoms_v(nodes@);
            let ghost before = o_database@;
            let children = join_tree.get_children(&s);
            match self.join_children(&s, &children, &mut o_database) {
                Ok(()) => {},
                Err(e) => {
                    assert(join_pass_v(edges, head_terms, before, pending) is None);
                    return Err(EvalError::ColumnLookup(error_relation(e)));
                },
            }
            let ghost after = o_database@;
            if !remove_node(&mut nodes, &s) {
                assert(join_pass_v(edges, head_terms, before, pending) == Some(after));
                break;
            }
        }
        let root = match join_tree.get_root() {
            Some(root) => root,
            None => return Ok(Table::new_empty(self.head.relation_name.clone())),
        };
        proof {
            let h = query_hyperedges(self@.body);
            lemma_first_root_member(gyo_edges(h), h, 0);
            crate::join_tree::lemma_distinct_atoms(self@.body);
            assert(h.contains(root@));
            assert(self@.body.contains(root@));
            let k = choose|k: int| 0 <= k < self@.body.len() && self@.body[k] == root@;
            assert(is_relation(self@.body[k].name));
        }
        if !relation_known(root.relation_name.as_str()) {
            return Err(EvalError::ColumnLookup(root.relation_name.clone()));
        }
        let big_o_r = o_database.get_table(root.relation_name.as_str());
        if !vars_named_in(&self.head.terms, big_o_r) {
            return Err(EvalError::ColumnLookup(root.relation_name.clone()));
        }
        Ok(big_o_r.project(self.head.terms.as_slice()))
    }

    /// For a boolean query: whether it has an answer. `false` for a query that is not boolean or
    /// is cyclic.
    pub fn yannakakis_boolean(&self, database: &Database) -> (r: Result<bool, EvalError>)
        requires
            database.wf(),
        ensures
            self@.head.terms.len() != 0 ==> r == Ok::<bool, EvalError>(false),
            self@.head.terms.len() == 0 ==> ((r matches Err(EvalError::TableNotFound(_))) <==> exists|k: int|
                0 <= k < self@.body.len() && !is_relation(#[trigger] self@.body[k].name)),
            self@.head.terms.len() == 0 && (forall|k: int| 0 <= k < self@.body.len() ==> is_relation(#[trigger] self@.body[k].name))
                && !query_is_acyclic(self@.body) ==> r == Ok::<bool, EvalError>(false),
            self@.head.terms.len() == 0 && (forall|k: int| 0 <= k < self@.body.len() ==> is_relation(#[trigger] self@.body[k].name))
                && query_is_acyclic(self@.body) ==> match boolean_answer_v(self@, database@) {
                Some(b) => r == Ok::<bool, EvalError>(b),
                None => r matches Err(EvalError::ColumnLookup(_)),
            },
    {
        if !self.is_boolean() {
            return Ok(false);
        }
        let mut k: usize = 0;
        while k < self.body.len()
            invariant
                self@.head.terms.len() == 0,
                k <= self.body.len(),
                forall|j: int| 0 <= j < k ==> is_relation(#[trigger] self@.body[j].name),
            decreases self.body.len() - k,
        {
            assert(self@.body[k as int] == self.body@[k as int]@);
            if !relation_known(self.body[k].relation_name.as_str()) {
                assert(!is_relation(self@.body[k as int].name));
                return Err(EvalError::TableNotFound(self.body[k].relation_name.clone()));
            }
            k = k + 1;
        }
        let mut database = database.clone();
        database.rename(self);
        let join_tree = match self.construct_join_tree() {
            Some(t) => t,
            None => return Ok(false),
        };
        let root = match join_tree.get_root() {
            Some(root) => root,
            None => return Ok(false),
        };
        proof {
            let h = query_hyperedges(self@.body);
            assert(join_tree@.nodes == h && join_tree@.edges == gyo_edges(h));
            assert(first_root_from(gyo_edges(h), h, 0) == Some(root@));
            lemma_first_root_member(gyo_edges(h), h, 0);
            assert(h.contains(root@));
            crate::join_tree::lemma_distinct_atoms(self@.body);
            assert(self@.body.contains(root@));
            let k = choose|k: int| 0 <= k < self@.body.len() && self@.body[k] == root@;
            assert(is_relation(self@.body[k].name));
        }
        let big_q = match self.remove_dangling_tuple_post_order(&join_tree, &database) {
            Ok(d) => d,
            Err(e) => return Err(EvalError::ColumnLookup(error_relation(e))),
        };
        if !relation_known(root.relation_name.as_str()) {
            return Err(EvalError::ColumnLookup(root.relation_name.clone()));
        }
        Ok(!big_q.get_table(root.relation_name.as_str()).is_empty())
    }
}

/// The relation that an error names.
fn error_relation(e: EvalError) -> String {
    match e {
        EvalError::TableNotFound(name) => name,
        EvalError::ColumnLookup(name) => name,
    }
}

} // verus!
