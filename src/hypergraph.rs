use vstd::prelude::*;

use crate::query::{Atom, AtomV, Query, TermV, atoms_contain, atoms_v, clone_atoms};

verus! {

/// `v` is a vertex of the hyperedge `a`: a variable among its terms.
pub open spec fn has_var(a: AtomV, v: Seq<char>) -> bool {
    a.terms.contains(TermV::Variable(v))
}

/// `v` occurs in no hyperedge of `h` other than the one at position `i`.
pub open spec fn exclusive(h: Seq<AtomV>, i: int, v: Seq<char>) -> bool {
    forall|j: int| 0 <= j < h.len() && j != i ==> !has_var(#[trigger] h[j], v)
}

/// The term at position `k` of hyperedge `i` does not keep `i` from being an ear with witness
/// `w`: it is a constant, a vertex exclusive to `i`, or a vertex of a witness other than `i`.
pub open spec fn term_covered(h: Seq<AtomV>, i: int, w: int, k: int) -> bool {
    match h[i].terms[k] {
        TermV::Variable(v) => exclusive(h, i, v) || (w != i && has_var(h[w], v)),
        TermV::Constant(_) => true,
    }
}

/// Hyperedge `i` is an ear with witness `w`: with `w == i`, all its vertices are exclusive to
/// it; otherwise `w` holds every vertex of `i` that is not exclusive to `i`.
pub open spec fn is_ear_with(h: Seq<AtomV>, i: int, w: int) -> bool {
    &&& 0 <= i < h.len()
    &&& 0 <= w < h.len()
    &&& forall|k: int| 0 <= k < h[i].terms.len() ==> #[trigger] term_covered(h, i, w, k)
}

/// The first witness at position `k` or later (other than `i` itself) for hyperedge `i`.
pub open spec fn first_witness_from(h: Seq<AtomV>, i: int, k: int) -> Option<int>
    decreases h.len() - k,
{
    if k >= h.len() || k < 0 {
        None
    } else if k != i && is_ear_with(h, i, k) {
        Some(k)
    } else {
        first_witness_from(h, i, k + 1)
    }
}

/// The witness reported for hyperedge `i`: itself when all its vertices are exclusive,
/// else the first other hyperedge that covers it.
pub open spec fn witness_of(h: Seq<AtomV>, i: int) -> Option<int> {
    if is_ear_with(h, i, i) {
        Some(i)
    } else {
        first_witness_from(h, i, 0)
    }
}

/// The first ear at position `k` or later, with its witness.
pub open spec fn first_ear_from(h: Seq<AtomV>, k: int) -> Option<(int, int)>
    decreases h.len() - k,
{
    if k >= h.len() || k < 0 {
        None
    } else {
        match witness_of(h, k) {
            Some(w) => Some((k, w)),
            None => first_ear_from(h, k + 1),
        }
    }
}

/// The ear that the reduction removes next, in the order of the hyperedges.
pub open spec fn find_ear_v(h: Seq<AtomV>) -> Option<(int, int)> {
    first_ear_from(h, 0)
}

/// What is left after removing ears while one exists (GYO reduction).
pub open spec fn gyo_residual(h: Seq<AtomV>) -> Seq<AtomV>
    decreases h.len(),
{
    match find_ear_v(h) {
        Some((i, _)) => if 0 <= i < h.len() {
            gyo_residual(h.remove(i))
        } else {
            h
        },
        None => h,
    }
}

/// The hyperedge that a removed ear `i` with witness `w` is hung under: the witness when it is
/// another hyperedge; for an ear that shares no vertex, the first other hyperedge, so that the
/// parts of the hypergraph that share no vertex end up in one tree; none for the last one.
pub open spec fn gyo_parent(h: Seq<AtomV>, i: int, w: int) -> Option<int> {
    if i != w {
        Some(w)
    } else if h.len() > 1 {
        Some(if i == 0 { 1 } else { 0 })
    } else {
        None
    }
}

/// The (parent, child) pairs that the reduction records: (parent, ear) for each removed ear
/// that `gyo_parent` hangs under another hyperedge.
pub open spec fn gyo_edges(h: Seq<AtomV>) -> Seq<(AtomV, AtomV)>
    decreases h.len(),
{
    match find_ear_v(h) {
        Some((i, w)) => if 0 <= i < h.len() && 0 <= w < h.len() {
            match gyo_parent(h, i, w) {
                Some(p) => seq![(h[p], h[i])] + gyo_edges(h.remove(i)),
                None => gyo_edges(h.remove(i)),
            }
        } else {
            Seq::empty()
        },
        None => Seq::empty(),
    }
}

/// A hypergraph is acyclic when the reduction removes every hyperedge.
pub open spec fn acyclic_v(h: Seq<AtomV>) -> bool {
    gyo_residual(h).len() == 0
}

/// The atoms of a sequence, each kept once, at its first occurrence.
pub open spec fn distinct_atoms(s: Seq<AtomV>) -> Seq<AtomV>
    decreases s.len(),
{
    if s.len() == 0 {
        Seq::empty()
    } else {
        let d = distinct_atoms(s.drop_last());
        if d.contains(s.last()) {
            d
        } else {
            d.push(s.last())
        }
    }
}

/// The hyperedges of a query: its body atoms, identical atoms counted once.
pub open spec fn query_hyperedges(body: Seq<AtomV>) -> Seq<AtomV> {
    distinct_atoms(body)
}

/// A query is acyclic when the hypergraph of its body is.
pub open spec fn query_is_acyclic(body: Seq<AtomV>) -> bool {
    acyclic_v(query_hyperedges(body))
}

pub proof fn lemma_first_witness_from(h: Seq<AtomV>, i: int, k: int)
    requires
        0 <= k,
    ensures
        first_witness_from(h, i, k) matches Some(w) ==> k <= w < h.len() && w != i && is_ear_with(h, i, w),
        first_witness_from(h, i, k) is None ==> forall|w: int|
            k <= w < h.len() && w != i ==> !is_ear_with(h, i, w),
        first_witness_from(h, i, k) matches Some(w) ==> forall|w2: int|
            k <= w2 < w && w2 != i ==> !is_ear_with(h, i, w2),
    decreases h.len() - k,
{
    if k < h.len() {
        lemma_first_witness_from(h, i, k + 1);
    }
}

pub proof fn lemma_first_ear_from(h: Seq<AtomV>, k: int)
    requires
        0 <= k,
    ensures
        first_ear_from(h, k) matches Some((i, w)) ==> k <= i < h.len() && 0 <= w < h.len()
            && is_ear_with(h, i, w),
        first_ear_from(h, k) is None ==> forall|i: int| k <= i < h.len() ==> witness_of(h, i) is None,
    decreases h.len() - k,
{
    if k < h.len() {
        lemma_first_ear_from(h, k + 1);
        lemma_first_witness_from(h, k, 0);
    }
}

/// A hypergraph: one hyperedge per distinct body atom, its vertices being the atom's variables.
#[derive(Debug)]
pub struct Hypergraph {
    pub hyperedges: Vec<Atom>,
}

impl Hypergraph {
    pub open spec fn view(&self) -> Seq<AtomV> {
        atoms_v(self.hyperedges@)
    }

    /// The hypergraph of a query's body; identical atoms give one hyperedge.
    pub fn new(query: &Query) -> (r: Hypergraph)
        ensures
            r@ == query_hyperedges(query@.body),
    {
        let ghost body = query@.body;
        let mut hyperedges: Vec<Atom> = Vec::new();
        let mut i: usize = 0;
        while i < query.body.len()
            invariant
                body == query@.body,
                i <= query.body.len(),
                atoms_v(hyperedges@) == distinct_atoms(body.take(i as int)),
            decreases query.body.len() - i,
        {
            let ghost next = body.take(i + 1);
            assert(next.drop_last() =~= body.take(i as int));
            assert(next.last() == query.body@[i as int]@);
            if !atoms_contain(&hyperedges, &query.body[i]) {
                let a = query.body[i].clone();
                hyperedges.push(a);
                assert(atoms_v(hyperedges@) =~= distinct_atoms(body.take(i as int)).push(next.last()));
            }
            i = i + 1;
        }
        assert(body.take(query.body.len() as int) =~= body);
        Hypergraph { hyperedges }
    }

    pub fn is_empty(&self) -> (r: bool)
        ensures
            r == (self@.len() == 0),
    {
        self.hyperedges.len() == 0
    }
}

/// Whether `v` is a vertex of `a`.
fn atom_has_var(a: &Atom, v: &String) -> (r: bool)
    ensures
        r == has_var(a@, v@),
{
    let mut k: usize = 0;
    while k < a.terms.len()
        invariant
            k <= a.terms.len(),
            forall|j: int| 0 <= j < k ==> a@.terms[j] != TermV::Variable(v@),
        decreases a.terms.len() - k,
    {
        let same = match &a.terms[k] {
            crate::query::Term::Variable(x) => String::eq(x, v),
            crate::query::Term::Constant(_) => false,
        };
        if same {
            assert(a@.terms[k as int] == TermV::Variable(v@));
            return true;
        }
        k = k + 1;
    }
    false
}

/// Whether `v` occurs in no hyperedge but the one at position `i`.
fn is_exclusive(edges: &Vec<Atom>, i: usize, v: &String) -> (r: bool)
    ensures
        r == exclusive(atoms_v(edges@), i as int, v@),
{
    let ghost h = atoms_v(edges@);
    let mut j: usize = 0;
    while j < edges.len()
        invariant
            h == atoms_v(edges@),
            j <= edges.len(),
            forall|j2: int| 0 <= j2 < j && j2 != i ==> !has_var(#[trigger] h[j2], v@),
        decreases edges.len() - j,
    {
        if j != i && atom_has_var(&edges[j], v) {
            assert(has_var(h[j as int], v@));
            return false;
        }
        j = j + 1;
    }
    true
}

/// Whether hyperedge `i` is an ear with witness `w`.
fn is_ear_with_exec(edges: &Vec<Atom>, i: usize, w: usize) -> (r: bool)
    requires
        i < edges.len(),
        w < edges.len(),
    ensures
        r == is_ear_with(atoms_v(edges@), i as int, w as int),
{
    let ghost h = atoms_v(edges@);
    let e = &edges[i];
    assert(h[i as int] == e@);
    let mut k: usize = 0;
    while k < e.terms.len()
        invariant
            h == atoms_v(edges@),
            i < edges.len(),
            w < edges.len(),
            h[i as int] == e@,
            k <= e.terms.len(),
            forall|k2: int| 0 <= k2 < k ==> #[trigger] term_covered(h, i as int, w as int, k2),
        decreases e.terms.len() - k,
    {
        assert(h[i as int].terms[k as int] == e.terms@[k as int]@);
        match &e.terms[k] {
            crate::query::Term::Variable(v) => {
                if !is_exclusive(edges, i, v) {
                    if w == i {
                        assert(!term_covered(h, i as int, w as int, k as int));
                        return false;
                    }
                    assert(h[w as int] == edges@[w as int]@);
                    if !atom_has_var(&edges[w], v) {
                        assert(!term_covered(h, i as int, w as int, k as int));
                        return false;
                    }
                }
            },
            crate::query::Term::Constant(_) => {},
        }
        k = k + 1;
    }
    true
}

impl Hypergraph {
    /// The witness reported for hyperedge `i`, if it is an ear.
    fn find_witness(&self, i: usize) -> (r: Option<usize>)
        requires
            i < self@.len(),
        ensures
            r matches Some(w) ==> witness_of(self@, i as int) == Some(w as int),
            r is None ==> witness_of(self@, i as int) is None,
    {
        if is_ear_with_exec(&self.hyperedges, i, i) {
            return Some(i);
        }
        let mut w: usize = 0;
        while w < self.hyperedges.len()
            invariant
                i < self@.len(),
                !is_ear_with(self@, i as int, i as int),
                w <= self.hyperedges.len(),
                first_witness_from(self@, i as int, 0) == first_witness_from(self@, i as int, w as int),
            decreases self.hyperedges.len() - w,
        {
            if w != i && is_ear_with_exec(&self.hyperedges, i, w) {
                return Some(w);
            }
            w = w + 1;
        }
        None
    }

    /// The first ear in the order of the hyperedges, with its witness (itself when all its
    /// vertices are exclusive); `None` when there is no ear.
    pub fn find_ear(&self) -> (r: Option<(usize, usize)>)
        ensures
            r matches Some((i, w)) ==> find_ear_v(self@) == Some((i as int, w as int)),
            r is None ==> find_ear_v(self@) is None,
    {
        let mut i: usize = 0;
        while i < self.hyperedges.len()
            invariant
                i <= self.hyperedges.len(),
                find_ear_v(self@) == first_ear_from(self@, i as int),
            decreases self.hyperedges.len() - i,
        {
            if let Some(w) = self.find_witness(i) {
                return Some((i, w));
            }
            i = i + 1;
        }
        None
    }

    /// Removes ears while one exists; acyclic when nothing is left.
    pub fn is_acyclic(&self) -> (r: bool)
        ensures
            r == acyclic_v(self@),
    {
        let mut h = Hypergraph { hyperedges: clone_atoms(&self.hyperedges) };
        loop
            invariant
                gyo_residual(h@) == gyo_residual(self@),
            ensures
                gyo_residual(h@) == gyo_residual(self@),
                find_ear_v(h@) is None,
            decreases h@.len(),
        {
            match h.find_ear() {
                Some((ear, _)) => {
                    proof {
                        lemma_first_ear_from(h@, 0);
                    }
                    let ghost prev = h@;
                    h.hyperedges.remove(ear);
                    assert(h@ =~= prev.remove(ear as int));
                },
                None => break,
            }
        }
        h.is_empty()
    }
}

} // verus!
