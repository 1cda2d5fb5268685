use vstd::prelude::*;

use crate::hypergraph::{
    Hypergraph,
    gyo_parent,
    distinct_atoms,
    find_ear_v,
    gyo_edges,
    gyo_residual,
    acyclic_v,
    lemma_first_ear_from,
    query_hyperedges,
    query_is_acyclic,
};
use crate::query::{Atom, AtomV, Query, atoms_contain, atoms_v, clone_atoms};

verus! {

/// `s` with `x` appended unless it already holds it.
pub open spec fn add_if_absent<A>(s: Seq<A>, x: A) -> Seq<A> {
    if s.contains(x) {
        s
    } else {
        s.push(x)
    }
}

/// The mathematical value of a join tree: its nodes and its (parent, child) edges.
pub struct JoinTreeV {
    pub nodes: Seq<AtomV>,
    pub edges: Seq<(AtomV, AtomV)>,
}

pub open spec fn edges_v(e: Seq<(Atom, Atom)>) -> Seq<(AtomV, AtomV)> {
    e.map_values(|p: (Atom, Atom)| (p.0@, p.1@))
}

/// The children of `p`, in the order of the edges.
pub open spec fn children_v(edges: Seq<(AtomV, AtomV)>, p: AtomV) -> Seq<AtomV>
    decreases edges.len(),
{
    if edges.len() == 0 {
        Seq::empty()
    } else {
        let c = children_v(edges.drop_last(), p);
        if edges.last().0 == p {
            c.push(edges.last().1)
        } else {
            c
        }
    }
}

/// No child of `n` lies in `s`.
pub open spec fn no_child_in(edges: Seq<(AtomV, AtomV)>, s: Seq<AtomV>, n: AtomV) -> bool {
    forall|k: int| 0 <= k < edges.len() && (#[trigger] edges[k]).0 == n ==> !s.contains(edges[k].1)
}

/// The parent of `c`: the parent in the first edge whose child is `c`.
pub open spec fn parent_v(edges: Seq<(AtomV, AtomV)>, c: AtomV) -> Option<AtomV>
    decreases edges.len(),
{
    if edges.len() == 0 {
        None
    } else {
        match parent_v(edges.drop_last(), c) {
            Some(p) => Some(p),
            None => if edges.last().1 == c {
                Some(edges.last().0)
            } else {
                None
            },
        }
    }
}

/// The first node of `nodes`, from position `k` on, none of whose children is in `nodes`.
pub open spec fn first_no_child_from(edges: Seq<(AtomV, AtomV)>, nodes: Seq<AtomV>, k: int) -> Option<AtomV>
    decreases nodes.len() - k,
{
    if k < 0 || k >= nodes.len() {
        None
    } else if no_child_in(edges, nodes, nodes[k]) {
        Some(nodes[k])
    } else {
        first_no_child_from(edges, nodes, k + 1)
    }
}

/// The first node of `nodes`, from position `k` on, that is the child in no edge.
pub open spec fn first_root_from(edges: Seq<(AtomV, AtomV)>, nodes: Seq<AtomV>, k: int) -> Option<AtomV>
    decreases nodes.len() - k,
{
    if k < 0 || k >= nodes.len() {
        None
    } else if parent_v(edges, nodes[k]) is None {
        Some(nodes[k])
    } else {
        first_root_from(edges, nodes, k + 1)
    }
}

/// The first node of `nodes`, from position `k` on, whose parent is not in `nodes`.
pub open spec fn first_no_parent_from(edges: Seq<(AtomV, AtomV)>, nodes: Seq<AtomV>, k: int) -> Option<AtomV>
    decreases nodes.len() - k,
{
    if k < 0 || k >= nodes.len() {
        None
    } else if no_parent_in(edges, nodes, nodes[k]) {
        Some(nodes[k])
    } else {
        first_no_parent_from(edges, nodes, k + 1)
    }
}

/// The parent of `n` is not in `s` (or `n` has none).
pub open spec fn no_parent_in(edges: Seq<(AtomV, AtomV)>, s: Seq<AtomV>, n: AtomV) -> bool {
    match parent_v(edges, n) {
        Some(p) => !s.contains(p),
        None => true,
    }
}

/// `c` is reached from `p` by following at least one and at most `k` edges.
pub open spec fn reaches(edges: Seq<(AtomV, AtomV)>, p: AtomV, c: AtomV, k: nat) -> bool
    decreases k,
{
    if k == 0 {
        false
    } else {
        exists|e: int|
            0 <= e < edges.len() && (#[trigger] edges[e]).0 == p && (edges[e].1 == c || reaches(
                edges,
                edges[e].1,
                c,
                (k - 1) as nat,
            ))
    }
}

/// `(p, c)` is an edge.
pub open spec fn child_of(edges: Seq<(AtomV, AtomV)>, p: AtomV, c: AtomV) -> bool {
    exists|e: int| 0 <= e < edges.len() && edges[e] == (p, c)
}

/// `c` is a descendant of `p`: some path of edges leads from `p` to `c`.
pub open spec fn is_descendant(edges: Seq<(AtomV, AtomV)>, p: AtomV, c: AtomV) -> bool {
    exists|k: nat| reaches(edges, p, c, k)
}

/// A path to `x` followed by an edge from `x` is a path.
pub proof fn lemma_reaches_extend(edges: Seq<(AtomV, AtomV)>, p: AtomV, x: AtomV, k: nat, e: int)
    requires
        reaches(edges, p, x, k),
        0 <= e < edges.len(),
        edges[e].0 == x,
    ensures
        reaches(edges, p, edges[e].1, k + 1),
    decreases k,
{
    let e0 = choose|e0: int|
        0 <= e0 < edges.len() && (#[trigger] edges[e0]).0 == p && (edges[e0].1 == x || reaches(
            edges,
            edges[e0].1,
            x,
            (k - 1) as nat,
        ));
    if edges[e0].1 == x {
        assert(reaches(edges, x, edges[e].1, k));
    } else {
        lemma_reaches_extend(edges, edges[e0].1, x, (k - 1) as nat, e);
    }
}

/// A set of nodes that holds the children of `p` and of each of its members holds every node
/// that `p` reaches.
pub proof fn lemma_reaches_closed(edges: Seq<(AtomV, AtomV)>, root: AtomV, s: Seq<AtomV>, p: AtomV, c: AtomV, k: nat)
    requires
        reaches(edges, p, c, k),
        p == root || s.contains(p),
        forall|e: int| 0 <= e < edges.len() && (#[trigger] edges[e]).0 == root ==> s.contains(edges[e].1),
        forall|e: int| 0 <= e < edges.len() && s.contains((#[trigger] edges[e]).0) ==> s.contains(edges[e].1),
    ensures
        s.contains(c),
    decreases k,
{
    let e0 = choose|e0: int|
        0 <= e0 < edges.len() && (#[trigger] edges[e0]).0 == p && (edges[e0].1 == c || reaches(
            edges,
            edges[e0].1,
            c,
            (k - 1) as nat,
        ));
    if edges[e0].1 != c {
        lemma_reaches_closed(edges, root, s, edges[e0].1, c, (k - 1) as nat);
    }
}

/// A rooted tree of atoms, kept as its nodes and its (parent, child) edges.
#[derive(Debug)]
pub struct JoinTree {
    nodes: Vec<Atom>,
    edges: Vec<(Atom, Atom)>,
}

impl JoinTree {
    pub closed spec fn view(&self) -> JoinTreeV {
        JoinTreeV { nodes: atoms_v(self.nodes@), edges: edges_v(self.edges@) }
    }

    /// The tree with no nodes.
    pub fn new() -> (r: Self)
        ensures
            r@.nodes.len() == 0,
            r@.edges.len() == 0,
    {
        JoinTree { nodes: Vec::new(), edges: Vec::new() }
    }

    /// The tree over the given nodes, with no edges.
    pub fn with_nodes(nodes: Vec<Atom>) -> (r: Self)
        ensures
            r@.nodes == atoms_v(nodes@),
            r@.edges.len() == 0,
    {
        JoinTree { nodes, edges: Vec::new() }
    }

    /// Adds the edge from `parent` to `child`, and both nodes, unless already present.
    pub fn add_edge(&mut self, parent: Atom, child: Atom)
        ensures
            final(self)@.edges == add_if_absent(old(self)@.edges, (parent@, child@)),
            final(self)@.nodes == add_if_absent(add_if_absent(old(self)@.nodes, parent@), child@),
    {
        let present = edges_contain(&self.edges, &parent, &child);
        if !atoms_contain(&self.nodes, &parent) {
            let ghost before = self.nodes@;
            self.nodes.push(parent.clone());
            assert(atoms_v(self.nodes@) =~= atoms_v(before).push(parent@));
        }
        if !atoms_contain(&self.nodes, &child) {
            let ghost before = self.nodes@;
            self.nodes.push(child.clone());
            assert(atoms_v(self.nodes@) =~= atoms_v(before).push(child@));
        }
        if !present {
            let ghost before = self.edges@;
            self.edges.push((parent, child));
            assert(edges_v(self.edges@) =~= edges_v(before).push((parent@, child@)));
        }
    }

    /// The nodes of the tree.
    pub fn get_nodes(&self) -> (r: Vec<Atom>)
        ensures
            atoms_v(r@) == self@.nodes,
    {
        clone_atoms(&self.nodes)
    }

    /// The parent of `child`, if it has one.
    pub fn get_parent(&self, child: &Atom) -> (r: Option<Atom>)
        ensures
            r matches Some(p) ==> parent_v(self@.edges, child@) == Some(p@),
            r is None ==> parent_v(self@.edges, child@) is None,
    {
        let ghost ev = self@.edges;
        let mut k: usize = 0;
        while k < self.edges.len()
            invariant
                ev == self@.edges,
                k <= self.edges.len(),
                parent_v(ev.take(k as int), child@) is None,
            decreases self.edges.len() - k,
        {
            let ghost next = ev.take(k + 1);
            assert(next.drop_last() =~= ev.take(k as int));
            assert(ev[k as int] == (self.edges@[k as int].0@, self.edges@[k as int].1@));
            assert(next.last() == ev[k as int]);
            if self.edges[k].1 == *child {
                let p = self.edges[k].0.clone();
                proof {
                    lemma_parent_prefix(ev, child@, k + 1);
                }
                return Some(p);
            }
            k = k + 1;
        }
        assert(ev.take(self.edges.len() as int) =~= ev);
        None
    }

    /// The children of `parent`, in the order of the edges.
    pub fn get_children(&self, parent: &Atom) -> (r: Vec<Atom>)
        ensures
            atoms_v(r@) == children_v(self@.edges, parent@),
    {
        let ghost ev = self@.edges;
        let mut children: Vec<Atom> = Vec::new();
        let mut k: usize = 0;
        while k < self.edges.len()
            invariant
                ev == self@.edges,
                k <= self.edges.len(),
                atoms_v(children@) == children_v(ev.take(k as int), parent@),
            decreases self.edges.len() - k,
        {
            let ghost next = ev.take(k + 1);
            assert(next.drop_last() =~= ev.take(k as int));
            assert(ev[k as int] == (self.edges@[k as int].0@, self.edges@[k as int].1@));
            assert(next.last() == ev[k as int]);
            if self.edges[k].0 == *parent {
                let ghost before = children@;
                children.push(self.edges[k].1.clone());
                assert(atoms_v(children@) =~= atoms_v(before).push(ev[k as int].1));
            }
            k = k + 1;
        }
        assert(ev.take(self.edges.len() as int) =~= ev);
        children
    }

    /// Appends to `result` each child of `x` that it does not hold yet.
    fn push_new_children(&self, x: &Atom, result: &mut Vec<Atom>)
        ensures
            final(result).len() >= old(result).len(),
            forall|j: int| 0 <= j < old(result).len() ==> #[trigger] atoms_v(final(result)@)[j] == atoms_v(old(result)@)[j],
            atoms_v(old(result)@).no_duplicates() ==> atoms_v(final(result)@).no_duplicates(),
            forall|e: int| 0 <= e < self@.edges.len() && (#[trigger] self@.edges[e]).0 == x@ ==> atoms_v(final(result)@).contains(
                self@.edges[e].1,
            ),
            forall|j: int| old(result).len() <= j < final(result).len() ==> child_of(self@.edges, x@, #[trigger] atoms_v(final(result)@)[j]),
    {
        let ghost ev = self@.edges;
        let ghost start = atoms_v(result@);
        let mut k: usize = 0;
        while k < self.edges.len()
            invariant
                ev == self@.edges,
                k <= self.edges.len(),
                result.len() >= start.len(),
                forall|j: int| 0 <= j < start.len() ==> #[trigger] atoms_v(result@)[j] == start[j],
                start.no_duplicates() ==> atoms_v(result@).no_duplicates(),
                forall|e: int| 0 <= e < k && (#[trigger] ev[e]).0 == x@ ==> atoms_v(result@).contains(ev[e].1),
                forall|j: int| start.len() <= j < result.len() ==> child_of(ev, x@, #[trigger] atoms_v(result@)[j]),
            decreases self.edges.len() - k,
        {
            assert(ev[k as int] == (self.edges@[k as int].0@, self.edges@[k as int].1@));
            if self.edges[k].0 == *x && !atoms_contain(result, &self.edges[k].1) {
                let ghost before = atoms_v(result@);
                result.push(self.edges[k].1.clone());
                let ghost after = atoms_v(result@);
                assert(after =~= before.push(ev[k as int].1));
                assert(child_of(ev, x@, ev[k as int].1));
                assert forall|e: int| 0 <= e < k + 1 && (#[trigger] ev[e]).0 == x@ implies after.contains(ev[e].1) by {
                    if e < k {
                        let j = choose|j: int| 0 <= j < before.len() && before[j] == ev[e].1;
                        assert(after[j] == ev[e].1);
                    } else {
                        assert(after[before.len() as int] == ev[e].1);
                    }
                }
            }
            k = k + 1;
        }
    }

    /// The nodes below `node`: those that some path of edges leads to from it, each once.
    pub fn get_descendants(&self, node: &Atom) -> (r: Vec<Atom>)
        ensures
            atoms_v(r@).no_duplicates(),
            forall|c: AtomV| atoms_v(r@).contains(c) <==> is_descendant(self@.edges, node@, c),
    {
        let ghost ev = self@.edges;
        let ghost children = ev.map_values(|e: (AtomV, AtomV)| e.1);
        let mut result: Vec<Atom> = Vec::new();
        assert(atoms_v(result@).no_duplicates());
        self.push_new_children(node, &mut result);
        proof {
            assert forall|j: int| 0 <= j < result.len() implies is_descendant(ev, node@, #[trigger] atoms_v(result@)[j]) by {
                let c = atoms_v(result@)[j];
                let e = choose|e: int| 0 <= e < ev.len() && ev[e] == (node@, c);
                assert(reaches(ev, node@, c, 1));
            }
        }
        let mut i: usize = 0;
        loop
            invariant
                ev == self@.edges,
                children == ev.map_values(|e: (AtomV, AtomV)| e.1),
                i <= result.len(),
                atoms_v(result@).no_duplicates(),
                forall|j: int| 0 <= j < result.len() ==> is_descendant(ev, node@, #[trigger] atoms_v(result@)[j]),
                forall|e: int| 0 <= e < ev.len() && (#[trigger] ev[e]).0 == node@ ==> atoms_v(result@).contains(ev[e].1),
                forall|j: int, e: int|
                    0 <= j < i && 0 <= e < ev.len() && (#[trigger] ev[e]).0 == #[trigger] atoms_v(result@)[j]
                        ==> atoms_v(result@).contains(ev[e].1),
            ensures
                atoms_v(result@).no_duplicates(),
                forall|j: int| 0 <= j < result.len() ==> is_descendant(ev, node@, #[trigger] atoms_v(result@)[j]),
                forall|e: int| 0 <= e < ev.len() && (#[trigger] ev[e]).0 == node@ ==> atoms_v(result@).contains(ev[e].1),
                forall|j: int, e: int|
                    0 <= j < result.len() && 0 <= e < ev.len() && (#[trigger] ev[e]).0 == #[trigger] atoms_v(result@)[j]
                        ==> atoms_v(result@).contains(ev[e].1),
            decreases ev.len() + 1 - i,
        {
            proof {
                let rs = atoms_v(result@);
                assert forall|j: int| 0 <= j < rs.len() implies children.contains(#[trigger] rs[j]) by {
                    let kk = choose|kk: nat| reaches(ev, node@, rs[j], kk);
                    lemma_last_edge(ev, node@, rs[j], kk);
                    let e2 = choose|e2: int| 0 <= e2 < ev.len() && ev[e2].1 == rs[j];
                    assert(children[e2] == ev[e2].1);
                }
                rs.unique_seq_to_set();
                children.lemma_cardinality_of_set();
                assert(rs.to_set().subset_of(children.to_set()));
                vstd::set_lib::lemma_len_subset(rs.to_set(), children.to_set());
            }
            if i >= result.len() {
                break;
            }
            let x = result[i].clone();
            let ghost before = atoms_v(result@);
            assert(before[i as int] == x@);
            self.push_new_children(&x, &mut result);
            proof {
                let after = atoms_v(result@);
                assert forall|j: int| 0 <= j < after.len() implies is_descendant(ev, node@, #[trigger] after[j]) by {
                    if j < before.len() {
                        assert(after[j] == before[j]);
                    } else {
                        assert(child_of(ev, x@, after[j]));
                        let e = choose|e: int| 0 <= e < ev.len() && ev[e] == (x@, after[j]);
                        assert(is_descendant(ev, node@, before[i as int]));
                        let kk = choose|kk: nat| reaches(ev, node@, before[i as int], kk);
                        lemma_reaches_extend(ev, node@, x@, kk, e);
                        assert(reaches(ev, node@, after[j], kk + 1));
                    }
                }
                assert forall|y: AtomV| before.contains(y) implies after.contains(y) by {
                    let j = choose|j: int| 0 <= j < before.len() && before[j] == y;
                    assert(after[j] == y);
                }
                assert forall|j: int, e: int|
                    0 <= j < i + 1 && 0 <= e < ev.len() && (#[trigger] ev[e]).0 == #[trigger] after[j] implies after.contains(ev[e].1) by {
                    assert(after[j] == before[j]);
                }
            }
            i = i + 1;
        }
        proof {
            let rs = atoms_v(result@);
            assert forall|e: int| 0 <= e < ev.len() && rs.contains((#[trigger] ev[e]).0) implies rs.contains(ev[e].1) by {
                let j = choose|j: int| 0 <= j < rs.len() && rs[j] == ev[e].0;
                assert(ev[e].0 == rs[j]);
            }
            assert forall|c: AtomV| is_descendant(ev, node@, c) implies rs.contains(c) by {
                let kk = choose|kk: nat| reaches(ev, node@, c, kk);
                lemma_reaches_closed(ev, node@, rs, node@, c, kk);
            }
            assert forall|c: AtomV| rs.contains(c) implies is_descendant(ev, node@, c) by {
                let j = choose|j: int| 0 <= j < rs.len() && rs[j] == c;
                assert(is_descendant(ev, node@, rs[j]));
            }
        }
        result
    }

    /// A node is a leaf when it is the parent in no edge.
    pub fn is_leaf(&self, node: &Atom) -> (r: bool)
        ensures
            r == forall|k: int| 0 <= k < self@.edges.len() ==> (#[trigger] self@.edges[k]).0 != node@,
    {
        let mut k: usize = 0;
        while k < self.edges.len()
            invariant
                k <= self.edges.len(),
                forall|j: int| 0 <= j < k ==> (#[trigger] self@.edges[j]).0 != node@,
            decreases self.edges.len() - k,
        {
            if self.edges[k].0 == *node {
                assert(self@.edges[k as int].0 == node@);
                return false;
            }
            k = k + 1;
        }
        true
    }

    /// The first node that is the child in no edge.
    pub fn get_root(&self) -> (r: Option<Atom>)
        ensures
            r matches Some(a) ==> self@.nodes.contains(a@) && parent_v(self@.edges, a@) is None,
            r matches Some(a) ==> exists|i: int|
                0 <= i < self@.nodes.len() && self@.nodes[i] == a@ && forall|j: int|
                    0 <= j < i ==> parent_v(self@.edges, #[trigger] self@.nodes[j]) is Some,
            r is None ==> forall|i: int|
                0 <= i < self@.nodes.len() ==> parent_v(self@.edges, #[trigger] self@.nodes[i]) is Some,
            r matches Some(a) ==> first_root_from(self@.edges, self@.nodes, 0) == Some(a@),
            r is None ==> first_root_from(self@.edges, self@.nodes, 0) is None,
    {
        let mut i: usize = 0;
        while i < self.nodes.len()
            invariant
                i <= self.nodes.len(),
                forall|j: int| 0 <= j < i ==> parent_v(self@.edges, #[trigger] self@.nodes[j]) is Some,
                first_root_from(self@.edges, self@.nodes, 0) == first_root_from(self@.edges, self@.nodes, i as int),
            decreases self.nodes.len() - i,
        {
            if self.get_parent(&self.nodes[i]).is_none() {
                let a = self.nodes[i].clone();
                assert(self@.nodes[i as int] == a@);
                return Some(a);
            }
            i = i + 1;
        }
        None
    }

    /// The first node of `nodes` none of whose children is in `nodes`.
    pub fn find_node_with_no_child_in_nodes(&self, nodes: &Vec<Atom>) -> (r: Option<Atom>)
        ensures
            r matches Some(a) ==> exists|i: int|
                0 <= i < nodes.len() && atoms_v(nodes@)[i] == a@ && no_child_in(self@.edges, atoms_v(nodes@), a@)
                    && forall|j: int|
                    0 <= j < i ==> !no_child_in(self@.edges, atoms_v(nodes@), #[trigger] atoms_v(nodes@)[j]),
            r is None ==> forall|i: int|
                0 <= i < nodes.len() ==> !no_child_in(self@.edges, atoms_v(nodes@), #[trigger] atoms_v(nodes@)[i]),
            r matches Some(a) ==> first_no_child_from(self@.edges, atoms_v(nodes@), 0) == Some(a@),
            r is None ==> first_no_child_from(self@.edges, atoms_v(nodes@), 0) is None,
    {
        let ghost s = atoms_v(nodes@);
        let mut i: usize = 0;
        while i < nodes.len()
            invariant
                s == atoms_v(nodes@),
                i <= nodes.len(),
                forall|j: int| 0 <= j < i ==> !no_child_in(self@.edges, s, #[trigger] s[j]),
                first_no_child_from(self@.edges, s, 0) == first_no_child_from(self@.edges, s, i as int),
            decreases nodes.len() - i,
        {
            let n = &nodes[i];
            assert(s[i as int] == n@);
            let mut ok = true;
            let mut k: usize = 0;
            while k < self.edges.len()
                invariant
                    s == atoms_v(nodes@),
                    s[i as int] == n@,
                    k <= self.edges.len(),
                    ok == forall|j: int|
                        0 <= j < k && (#[trigger] self@.edges[j]).0 == n@ ==> !s.contains(self@.edges[j].1),
                decreases self.edges.len() - k,
            {
                assert(self@.edges[k as int] == (self.edges@[k as int].0@, self.edges@[k as int].1@));
                if self.edges[k].0 == *n && atoms_contain(nodes, &self.edges[k].1) {
                    ok = false;
                }
                k = k + 1;
            }
            if ok {
                return Some(n.clone());
            }
            i = i + 1;
        }
        None
    }

    /// The first node of `nodes` whose parent is not in `nodes` (or that has no parent).
    pub fn find_node_with_no_parent_in_nodes(&self, nodes: &Vec<Atom>) -> (r: Option<Atom>)
        ensures
            r matches Some(a) ==> exists|i: int|
                0 <= i < nodes.len() && atoms_v(nodes@)[i] == a@ && no_parent_in(self@.edges, atoms_v(nodes@), a@)
                    && forall|j: int|
                    0 <= j < i ==> !no_parent_in(self@.edges, atoms_v(nodes@), #[trigger] atoms_v(nodes@)[j]),
            r is None ==> forall|i: int|
                0 <= i < nodes.len() ==> !no_parent_in(self@.edges, atoms_v(nodes@), #[trigger] atoms_v(nodes@)[i]),
            r matches Some(a) ==> first_no_parent_from(self@.edges, atoms_v(nodes@), 0) == Some(a@),
            r is None ==> first_no_parent_from(self@.edges, atoms_v(nodes@), 0) is None,
    {
        let ghost s = atoms_v(nodes@);
        let mut i: usize = 0;
        while i < nodes.len()
            invariant
                s == atoms_v(nodes@),
                i <= nodes.len(),
                forall|j: int| 0 <= j < i ==> !no_parent_in(self@.edges, s, #[trigger] s[j]),
                first_no_parent_from(self@.edges, s, 0) == first_no_parent_from(self@.edges, s, i as int),
            decreases nodes.len() - i,
        {
            let n = &nodes[i];
            assert(s[i as int] == n@);
            let ok = match self.get_parent(n) {
                Some(p) => !atoms_contain(nodes, &p),
                None => true,
            };
            if ok {
                return Some(n.clone());
            }
            i = i + 1;
        }
        None
    }
}

impl Default for JoinTree {
    fn default() -> (r: Self)
        ensures
            r@.nodes.len() == 0,
            r@.edges.len() == 0,
    {
        Self::new()
    }
}

/// Whether the edges hold the edge from `parent` to `child`.
fn edges_contain(edges: &Vec<(Atom, Atom)>, parent: &Atom, child: &Atom) -> (r: bool)
    ensures
        r == edges_v(edges@).contains((parent@, child@)),
{
    let ghost ev = edges_v(edges@);
    let mut k: usize = 0;
    while k < edges.len()
        invariant
            ev == edges_v(edges@),
            k <= edges.len(),
            forall|j: int| 0 <= j < k ==> ev[j] != (parent@, child@),
        decreases edges.len() - k,
    {
        assert(ev[k as int] == (edges@[k as int].0@, edges@[k as int].1@));
        if edges[k].0 == *parent && edges[k].1 == *child {
            return true;
        }
        k = k + 1;
    }
    false
}

/// A path ends with an edge into its last node.
pub proof fn lemma_last_edge(edges: Seq<(AtomV, AtomV)>, p: AtomV, c: AtomV, k: nat)
    requires
        reaches(edges, p, c, k),
    ensures
        exists|e: int| 0 <= e < edges.len() && edges[e].1 == c,
    decreases k,
{
    let e0 = choose|e0: int|
        0 <= e0 < edges.len() && (#[trigger] edges[e0]).0 == p && (edges[e0].1 == c || reaches(
            edges,
            edges[e0].1,
            c,
            (k - 1) as nat,
        ));
    if edges[e0].1 != c {
        lemma_last_edge(edges, edges[e0].1, c, (k - 1) as nat);
    }
}

/// The parent found in a prefix of the edges is the parent in all of them.
pub proof fn lemma_parent_prefix(edges: Seq<(AtomV, AtomV)>, c: AtomV, n: int)
    requires
        0 <= n <= edges.len(),
        parent_v(edges.take(n), c) is Some,
    ensures
        parent_v(edges, c) == parent_v(edges.take(n), c),
    decreases edges.len() - n,
{
    if n < edges.len() {
        assert(edges.take(n + 1).drop_last() =~= edges.take(n));
        lemma_parent_prefix(edges, c, n + 1);
    } else {
        assert(edges.take(n) =~= edges);
    }
}

/// The edges are those of a tree: each joins two distinct nodes of `nodes`, no node is the
/// child in two edges, and a parent is never the child of the same or an earlier edge, so
/// following parents never comes back to a node.
pub open spec fn tree_shaped(nodes: Seq<AtomV>, edges: Seq<(AtomV, AtomV)>) -> bool {
    &&& forall|k: int|
        0 <= k < edges.len() ==> nodes.contains((#[trigger] edges[k]).0) && nodes.contains(edges[k].1)
            && edges[k].0 != edges[k].1
    &&& forall|k1: int, k2: int| 0 <= k1 < k2 < edges.len() ==> (#[trigger] edges[k1]).1 != (#[trigger] edges[k2]).1
    &&& forall|k1: int, k2: int| 0 <= k1 <= k2 < edges.len() ==> (#[trigger] edges[k2]).0 != (#[trigger] edges[k1]).1
}

/// Removing an element keeps a sequence without duplicates, and takes that element out.
pub proof fn lemma_remove_distinct(h: Seq<AtomV>, i: int)
    requires
        h.no_duplicates(),
        0 <= i < h.len(),
    ensures
        h.remove(i).no_duplicates(),
        !h.remove(i).contains(h[i]),
        forall|x: AtomV| h.remove(i).contains(x) ==> h.contains(x),
{
    let r = h.remove(i);
    assert forall|a: int, b: int| 0 <= a < r.len() && 0 <= b < r.len() && a != b implies r[a] != r[b] by {
        let fa = if a < i { a } else { a + 1 };
        let fb = if b < i { b } else { b + 1 };
        assert(r[a] == h[fa] && r[b] == h[fb]);
    }
    if r.contains(h[i]) {
        let a = choose|a: int| 0 <= a < r.len() && r[a] == h[i];
        let fa = if a < i { a } else { a + 1 };
        assert(r[a] == h[fa]);
    }
    assert forall|x: AtomV| r.contains(x) implies h.contains(x) by {
        let a = choose|a: int| 0 <= a < r.len() && r[a] == x;
        let fa = if a < i { a } else { a + 1 };
        assert(r[a] == h[fa]);
    }
}

/// The reduction of a hypergraph without repeated hyperedges records a tree over them.
pub proof fn lemma_gyo_edges_tree(h: Seq<AtomV>)
    requires
        h.no_duplicates(),
    ensures
        tree_shaped(h, gyo_edges(h)),
    decreases h.len(),
{
    let e = gyo_edges(h);
    match find_ear_v(h) {
        Some((i, w)) => {
            lemma_first_ear_from(h, 0);
            let rest = h.remove(i);
            lemma_remove_distinct(h, i);
            lemma_gyo_edges_tree(rest);
            let er = gyo_edges(rest);
            match gyo_parent(h, i, w) {
                None => {
                    assert(e == er);
                    assert forall|k: int| 0 <= k < e.len() implies h.contains((#[trigger] e[k]).0) && h.contains(e[k].1)
                        && e[k].0 != e[k].1 by {
                        assert(rest.contains(e[k].0) && rest.contains(e[k].1));
                    }
                },
                Some(w) => {
                    assert(0 <= w < h.len() && w != i);
                    assert(e == seq![(h[w], h[i])] + er);
                    assert(h.contains(h[w]) && h.contains(h[i]));
                    assert forall|k: int| 0 <= k < e.len() implies h.contains((#[trigger] e[k]).0) && h.contains(e[k].1)
                        && e[k].0 != e[k].1 by {
                        if k > 0 {
                            assert(e[k] == er[k - 1]);
                            assert(rest.contains(er[k - 1].0) && rest.contains(er[k - 1].1));
                        }
                    }
                    assert forall|k1: int, k2: int| 0 <= k1 < k2 < e.len() implies (#[trigger] e[k1]).1 != (#[trigger] e[k2]).1 by {
                        assert(e[k2] == er[k2 - 1]);
                        if k1 == 0 {
                            assert(rest.contains(er[k2 - 1].1));
                        } else {
                            assert(e[k1] == er[k1 - 1]);
                        }
                    }
                    assert forall|k1: int, k2: int| 0 <= k1 <= k2 < e.len() implies (#[trigger] e[k2]).0 != (#[trigger] e[k1]).1 by {
                        if k2 > 0 {
                            assert(e[k2] == er[k2 - 1]);
                            if k1 == 0 {
                                assert(rest.contains(er[k2 - 1].0));
                            } else {
                                assert(e[k1] == er[k1 - 1]);
                            }
                        }
                    }
                },
            }
        },
        None => {
            assert(e.len() == 0);
        },
    }
}

/// Some edge has `x` as its child.
pub open spec fn has_parent_edge(edges: Seq<(AtomV, AtomV)>, x: AtomV) -> bool {
    exists|k: int| 0 <= k < edges.len() && (#[trigger] edges[k]).1 == x
}

/// Exactly one node, the root, has no parent.
pub open spec fn single_root(nodes: Seq<AtomV>, edges: Seq<(AtomV, AtomV)>) -> bool {
    exists|r: AtomV|
        #![trigger nodes.contains(r)]
        nodes.contains(r) && parent_v(edges, r) is None && forall|x: AtomV|
            nodes.contains(x) && x != r ==> #[trigger] parent_v(edges, x) is Some
}

/// A node has a parent exactly when it is the child of some edge.
pub proof fn lemma_parent_exists(edges: Seq<(AtomV, AtomV)>, x: AtomV)
    ensures
        parent_v(edges, x) is Some <==> has_parent_edge(edges, x),
    decreases edges.len(),
{
    if edges.len() > 0 {
        let t = edges.drop_last();
        lemma_parent_exists(t, x);
        if has_parent_edge(t, x) {
            let k = choose|k: int| 0 <= k < t.len() && (#[trigger] t[k]).1 == x;
            assert(edges[k] == t[k]);
        }
        if has_parent_edge(edges, x) && !has_parent_edge(t, x) {
            let k = choose|k: int| 0 <= k < edges.len() && (#[trigger] edges[k]).1 == x;
            if k < edges.len() - 1 {
                assert(t[k] == edges[k]);
            }
        }
        if edges.last().1 == x {
            assert(edges[edges.len() - 1].1 == x);
        }
    }
}

/// The reduction of a nonempty acyclic hypergraph without repeated hyperedges leaves one node
/// that is the child of no edge, and every other node is the child of some edge.
pub proof fn lemma_gyo_edges_one_root(h: Seq<AtomV>)
    requires
        h.no_duplicates(),
        h.len() >= 1,
        crate::hypergraph::acyclic_v(h),
    ensures
        exists|r: AtomV|
            #![trigger h.contains(r)]
            h.contains(r) && !has_parent_edge(gyo_edges(h), r) && forall|x: AtomV|
                h.contains(x) && x != r ==> #[trigger] has_parent_edge(gyo_edges(h), x),
    decreases h.len(),
{
    let e = gyo_edges(h);
    lemma_first_ear_from(h, 0);
    match find_ear_v(h) {
        None => {
            assert(gyo_residual(h) == h);
        },
        Some((i, w)) => {
            let rest = h.remove(i);
            lemma_remove_distinct(h, i);
            assert(gyo_residual(rest) == gyo_residual(h));
            assert forall|x: AtomV| h.contains(x) && x != h[i] implies rest.contains(x) by {
                let j = choose|j: int| 0 <= j < h.len() && h[j] == x;
                if j < i {
                    assert(rest[j] == x);
                } else {
                    assert(rest[j - 1] == x);
                }
            }
            if h.len() == 1 {
                assert(w == i);
                assert(gyo_parent(h, i, w) is None);
                assert(rest.len() == 0);
                lemma_first_ear_from(rest, 0);
                assert(gyo_edges(rest).len() == 0);
                assert(e.len() == 0);
                let r = h[0];
                assert(h.contains(r));
                assert forall|x: AtomV| h.contains(x) && x != r implies #[trigger] has_parent_edge(e, x) by {
                    let j = choose|j: int| 0 <= j < h.len() && h[j] == x;
                }
            } else {
                let p = gyo_parent(h, i, w)->0;
                let er = gyo_edges(rest);
                assert(e == seq![(h[p], h[i])] + er);
                lemma_gyo_edges_one_root(rest);
                let r = choose|r: AtomV|
                    #![trigger rest.contains(r)]
                    rest.contains(r) && !has_parent_edge(er, r) && forall|x: AtomV|
                        rest.contains(x) && x != r ==> #[trigger] has_parent_edge(er, x);
                assert(h.contains(r));
                assert(r != h[i]);
                assert(!has_parent_edge(e, r)) by {
                    if has_parent_edge(e, r) {
                        let k = choose|k: int| 0 <= k < e.len() && (#[trigger] e[k]).1 == r;
                        if k > 0 {
                            assert(er[k - 1] == e[k]);
                        }
                    }
                }
                assert forall|x: AtomV| h.contains(x) && x != r implies #[trigger] has_parent_edge(e, x) by {
                    if x == h[i] {
                        assert(e[0].1 == x);
                    } else {
                        assert(has_parent_edge(er, x));
                        let k = choose|k: int| 0 <= k < er.len() && (#[trigger] er[k]).1 == x;
                        assert(e[k + 1] == er[k]);
                    }
                }
            }
        },
    }
}

/// A nonempty sequence keeps at least one atom.
pub proof fn lemma_distinct_nonempty(s: Seq<AtomV>)
    requires
        s.len() >= 1,
    ensures
        distinct_atoms(s).len() >= 1,
    decreases s.len(),
{
    if s.len() > 1 {
        lemma_distinct_nonempty(s.drop_last());
    }
}

/// The atoms kept by `distinct_atoms` are pairwise distinct.
pub proof fn lemma_distinct_atoms(s: Seq<AtomV>)
    ensures
        distinct_atoms(s).no_duplicates(),
        forall|x: AtomV| distinct_atoms(s).contains(x) ==> s.contains(x),
    decreases s.len(),
{
    if s.len() > 0 {
        let t = s.drop_last();
        lemma_distinct_atoms(t);
        let d = distinct_atoms(t);
        let r = distinct_atoms(s);
        if !d.contains(s.last()) {
            assert(r == d.push(s.last()));
            assert forall|i: int, j: int| 0 <= i < r.len() && 0 <= j < r.len() && i != j implies r[i] != r[j] by {
                if i < d.len() && j < d.len() {
                    assert(r[i] == d[i] && r[j] == d[j]);
                } else if i < d.len() {
                    assert(r[i] == d[i]);
                } else {
                    assert(r[j] == d[j]);
                }
            }
        }
        assert forall|x: AtomV| r.contains(x) implies s.contains(x) by {
            if d.contains(x) {
                assert(t.contains(x));
                let k = choose|k: int| 0 <= k < t.len() && t[k] == x;
                assert(s[k] == x);
            } else {
                assert(s[s.len() - 1] == x);
            }
        }
    }
}

impl Query {
    /// Whether the query's hypergraph reduces to nothing by ear removal.
    pub fn is_acyclic(&self) -> (r: bool)
        ensures
            r == query_is_acyclic(self@.body),
    {
        let hypergraph = Hypergraph::new(self);
        hypergraph.is_acyclic()
    }

    /// The join tree built by ear removal: for each ear with another hyperedge as witness, the
    /// edge (witness, ear). `None` exactly when the query is cyclic.
    pub fn construct_join_tree(&self) -> (r: Option<JoinTree>)
        ensures
            r is Some <==> query_is_acyclic(self@.body),
            r matches Some(t) ==> t@ == (JoinTreeV {
                nodes: query_hyperedges(self@.body),
                edges: gyo_edges(query_hyperedges(self@.body)),
            }),
            r matches Some(t) ==> tree_shaped(t@.nodes, t@.edges),
            self@.body.len() >= 1 ==> (r matches Some(t) ==> single_root(t@.nodes, t@.edges)),
    {
        let mut hypergraph = Hypergraph::new(self);
        let ghost h0 = hypergraph@;
        proof {
            lemma_distinct_atoms(self@.body);
        }
        let mut join_tree = JoinTree::with_nodes(clone_atoms(&hypergraph.hyperedges));
        loop
            invariant
                join_tree@.nodes == h0,
                gyo_residual(hypergraph@) == gyo_residual(h0),
                join_tree@.edges + gyo_edges(hypergraph@) == gyo_edges(h0),
                hypergraph@.no_duplicates(),
                forall|x: AtomV| hypergraph@.contains(x) ==> h0.contains(x),
                forall|k: int| 0 <= k < join_tree@.edges.len() ==> !hypergraph@.contains(#[trigger] join_tree@.edges[k].1),
            ensures
                join_tree@.nodes == h0,
                gyo_residual(hypergraph@) == gyo_residual(h0),
                join_tree@.edges + gyo_edges(hypergraph@) == gyo_edges(h0),
                find_ear_v(hypergraph@) is None,
            decreases hypergraph@.len(),
        {
            match hypergraph.find_ear() {
                Some((ear, witness)) => {
                    let ghost h = hypergraph@;
                    proof {
                        lemma_first_ear_from(h, 0);
                    }
                    let ghost rest = h.remove(ear as int);
                    let parent: Option<usize> = if ear != witness {
                        Some(witness)
                    } else if hypergraph.hyperedges.len() > 1 {
                        Some(if ear == 0 { 1 } else { 0 })
                    } else {
                        None
                    };
                    assert(parent matches Some(p) ==> gyo_parent(h, ear as int, witness as int) == Some(p as int));
                    assert(parent is None ==> gyo_parent(h, ear as int, witness as int) is None);
                    if let Some(witness) = parent {
                        let w = hypergraph.hyperedges[witness].clone();
                        let e = hypergraph.hyperedges[ear].clone();
                        proof {
                            assert(h.contains(h[witness as int]));
                            assert(h.contains(h[ear as int]));
                            assert(!join_tree@.edges.contains((w@, e@))) by {
                                if join_tree@.edges.contains((w@, e@)) {
                                    let k = choose|k: int| 0 <= k < join_tree@.edges.len() && join_tree@.edges[k] == (w@, e@);
                                    assert(h.contains(join_tree@.edges[k].1));
                                }
                            }
                        }
                        let ghost old_edges = join_tree@.edges;
                        join_tree.add_edge(w, e);
                        assert(join_tree@.edges == old_edges.push((h[witness as int], h[ear as int])));
                        assert(gyo_edges(h) == seq![(h[witness as int], h[ear as int])] + gyo_edges(rest));
                        assert(join_tree@.edges + gyo_edges(rest) =~= old_edges + gyo_edges(h));
                    }
                    hypergraph.hyperedges.remove(ear);
                    assert(hypergraph@ =~= rest);
                    proof {
                        assert forall|x: AtomV| rest.contains(x) implies h0.contains(x) by {
                            let k = choose|k: int| 0 <= k < rest.len() && rest[k] == x;
                            if k < ear {
                                assert(h[k] == x);
                            } else {
                                assert(h[k + 1] == x);
                            }
                        }
                        assert forall|k: int| 0 <= k < join_tree@.edges.len() implies !rest.contains(#[trigger] join_tree@.edges[k].1) by {
                            if rest.contains(join_tree@.edges[k].1) {
                                let j = choose|j: int| 0 <= j < rest.len() && rest[j] == join_tree@.edges[k].1;
                                if j < ear {
                                    assert(h[j] == rest[j]);
                                } else {
                                    assert(h[j + 1] == rest[j]);
                                }
                                if k == join_tree@.edges.len() - 1 && parent is Some {
                                    assert(join_tree@.edges[k].1 == h[ear as int]);
                                    if j < ear {
                                        assert(h[j] == h[ear as int]);
                                    } else {
                                        assert(h[j + 1] == h[ear as int]);
                                    }
                                }
                            }
                        }
                    }
                },
                None => break,
            }
        }
        if !hypergraph.is_empty() {
            return None;
        }
        assert(gyo_edges(hypergraph@) =~= Seq::<(AtomV, AtomV)>::empty());
        assert(join_tree@.edges =~= gyo_edges(h0));
        proof {
            lemma_gyo_edges_tree(h0);
            if self@.body.len() >= 1 {
                assert(h0.contains(h0[0])) by {
                    assert(distinct_atoms(self@.body).len() >= 1) by {
                        lemma_distinct_nonempty(self@.body);
                    }
                }
                lemma_gyo_edges_one_root(h0);
                let r = choose|r: AtomV|
                    #![trigger h0.contains(r)]
                    h0.contains(r) && !has_parent_edge(gyo_edges(h0), r) && forall|x: AtomV|
                        h0.contains(x) && x != r ==> #[trigger] has_parent_edge(gyo_edges(h0), x);
                lemma_parent_exists(gyo_edges(h0), r);
                assert forall|x: AtomV| h0.contains(x) && x != r implies #[trigger] parent_v(gyo_edges(h0), x) is Some by {
                    lemma_parent_exists(gyo_edges(h0), x);
                }
                assert(single_root(h0, gyo_edges(h0)));
            }
        }
        Some(join_tree)
    }
}

} // verus!
