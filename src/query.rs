use vstd::prelude::*;

verus! {

/// The mathematical value of a term.
pub enum TermV {
    Variable(Seq<char>),
    Constant(Seq<char>),
}

/// The mathematical value of an atom: a relation name over an ordered list of terms.
pub struct AtomV {
    pub name: Seq<char>,
    pub terms: Seq<TermV>,
}

/// A term of an atom: a variable, or a constant value.
#[derive(Debug)]
pub enum Term {
    Variable(String),
    Constant(String),
}

impl Term {
    pub open spec fn view(&self) -> TermV {
        match self {
            Term::Variable(s) => TermV::Variable(s@),
            Term::Constant(s) => TermV::Constant(s@),
        }
    }
}

impl Clone for Term {
    fn clone(&self) -> (r: Self)
        ensures
            r == *self,
    {
        match self {
            Term::Variable(s) => Term::Variable(s.clone()),
            Term::Constant(s) => Term::Constant(s.clone()),
        }
    }
}

impl PartialEq for Term {
    fn eq(&self, other: &Term) -> (r: bool)
        ensures
            r == (self@ == other@),
    {
        match self {
            Term::Variable(a) => match other {
                Term::Variable(b) => String::eq(a, b),
                Term::Constant(_) => false,
            },
            Term::Constant(a) => match other {
                Term::Variable(_) => false,
                Term::Constant(b) => String::eq(a, b),
            },
        }
    }
}

impl vstd::std_specs::cmp::PartialEqSpecImpl for Term {
    open spec fn obeys_eq_spec() -> bool {
        true
    }

    open spec fn eq_spec(&self, other: &Term) -> bool {
        self@ == other@
    }
}

/// The values of a sequence of terms.
pub open spec fn terms_v(ts: Seq<Term>) -> Seq<TermV> {
    ts.map_values(|t: Term| t@)
}

/// A relation name applied to an ordered list of terms.
#[derive(Debug)]
pub struct Atom {
    pub relation_name: String,
    pub terms: Vec<Term>,
}

impl Atom {
    pub open spec fn view(&self) -> AtomV {
        AtomV { name: self.relation_name@, terms: terms_v(self.terms@) }
    }
}

impl Clone for Atom {
    fn clone(&self) -> (r: Self)
        ensures
            r@ == self@,
    {
        Atom { relation_name: self.relation_name.clone(), terms: clone_terms(&self.terms) }
    }
}

/// A copy of a list of terms.
pub fn clone_terms(ts: &Vec<Term>) -> (r: Vec<Term>)
    ensures
        terms_v(r@) == terms_v(ts@),
        r.len() == ts.len(),
        forall|k: int| 0 <= k < r.len() ==> (#[trigger] r@[k])@ == ts@[k]@,
{
    let mut r: Vec<Term> = Vec::new();
    let mut i: usize = 0;
    while i < ts.len()
        invariant
            i <= ts.len(),
            r.len() == i,
            forall|k: int| 0 <= k < i ==> (#[trigger] r@[k])@ == ts@[k]@,
        decreases ts.len() - i,
    {
        let t = ts[i].clone();
        r.push(t);
        i = i + 1;
    }
    assert(terms_v(r@) =~= terms_v(ts@));
    r
}

/// Whether a list of terms holds the given term.
pub fn terms_contain(ts: &Vec<Term>, t: &Term) -> (r: bool)
    ensures
        r == terms_v(ts@).contains(t@),
{
    let mut i: usize = 0;
    while i < ts.len()
        invariant
            i <= ts.len(),
            forall|k: int| 0 <= k < i ==> terms_v(ts@)[k] != t@,
        decreases ts.len() - i,
    {
        if ts[i] == *t {
            assert(terms_v(ts@)[i as int] == t@);
            return true;
        }
        i = i + 1;
    }
    false
}

impl PartialEq for Atom {
    fn eq(&self, other: &Atom) -> (r: bool)
        ensures
            r == (self@ == other@),
    {
        if !String::eq(&self.relation_name, &other.relation_name) {
            return false;
        }
        if self.terms.len() != other.terms.len() {
            assert(self@.terms.len() != other@.terms.len());
            return false;
        }
        let mut i: usize = 0;
        while i < self.terms.len()
            invariant
                self.terms.len() == other.terms.len(),
                i <= self.terms.len(),
                forall|k: int| 0 <= k < i ==> self@.terms[k] == other@.terms[k],
            decreases self.terms.len() - i,
        {
            if self.terms[i] != other.terms[i] {
                assert(self@.terms[i as int] != other@.terms[i as int]);
                return false;
            }
            i = i + 1;
        }
        assert(self@.terms =~= other@.terms);
        true
    }
}

impl vstd::std_specs::cmp::PartialEqSpecImpl for Atom {
    open spec fn obeys_eq_spec() -> bool {
        true
    }

    open spec fn eq_spec(&self, other: &Atom) -> bool {
        self@ == other@
    }
}

/// Whether a list of atoms holds the given atom.
pub fn atoms_contain(atoms: &Vec<Atom>, a: &Atom) -> (r: bool)
    ensures
        r == atoms_v(atoms@).contains(a@),
{
    let mut i: usize = 0;
    while i < atoms.len()
        invariant
            i <= atoms.len(),
            forall|k: int| 0 <= k < i ==> atoms_v(atoms@)[k] != a@,
        decreases atoms.len() - i,
    {
        if atoms[i] == *a {
            assert(atoms_v(atoms@)[i as int] == a@);
            return true;
        }
        i = i + 1;
    }
    false
}

/// A copy of a list of atoms.
pub fn clone_atoms(atoms: &Vec<Atom>) -> (r: Vec<Atom>)
    ensures
        atoms_v(r@) == atoms_v(atoms@),
        r.len() == atoms.len(),
{
    let mut r: Vec<Atom> = Vec::new();
    let mut i: usize = 0;
    while i < atoms.len()
        invariant
            i <= atoms.len(),
            r.len() == i,
            forall|k: int| 0 <= k < i ==> (#[trigger] r@[k])@ == atoms@[k]@,
        decreases atoms.len() - i,
    {
        r.push(atoms[i].clone());
        i = i + 1;
    }
    assert(atoms_v(r@) =~= atoms_v(atoms@));
    r
}

/// `left` followed by each term of `right` that is not already present, in order.
pub open spec fn union_terms(left: Seq<TermV>, right: Seq<TermV>) -> Seq<TermV>
    decreases right.len(),
{
    if right.len() == 0 {
        left
    } else {
        let u = union_terms(left, right.drop_last());
        if u.contains(right.last()) {
            u
        } else {
            u.push(right.last())
        }
    }
}

/// The name of a combined relation: the two names joined by an underscore.
pub open spec fn merged_name(left: Seq<char>, right: Seq<char>) -> Seq<char> {
    left + seq!['_'] + right
}

impl Atom {
    /// The atom over the concatenated terms of two atoms.
    pub fn merge(left: &Atom, right: &Atom) -> (r: Self)
        ensures
            r@.name == merged_name(left@.name, right@.name),
            r@.terms == left@.terms + right@.terms,
    {
        let mut name = left.relation_name.clone();
        name.append("_");
        name.append(right.relation_name.as_str());
        proof {
            reveal_strlit("_");
        }
        let mut terms = clone_terms(&left.terms);
        let mut i: usize = 0;
        while i < right.terms.len()
            invariant
                i <= right.terms.len(),
                terms.len() == left.terms.len() + i,
                forall|k: int| 0 <= k < left.terms.len() ==> (#[trigger] terms@[k])@ == left@.terms[k],
                forall|k: int|
                    left.terms.len() <= k < terms.len() ==> (#[trigger] terms@[k])@ == right@.terms[k
                        - left.terms.len()],
            decreases right.terms.len() - i,
        {
            let t = right.terms[i].clone();
            terms.push(t);
            i = i + 1;
        }
        assert(terms_v(terms@) =~= left@.terms + right@.terms);
        Atom { relation_name: name, terms }
    }

    /// The terms of `left`, then those of `right` not already among them.
    pub fn union(left: &Atom, right: &Atom) -> (r: Vec<Term>)
        ensures
            terms_v(r@) == union_terms(left@.terms, right@.terms),
    {
        let mut result = clone_terms(&left.terms);
        let mut i: usize = 0;
        while i < right.terms.len()
            invariant
                i <= right.terms.len(),
                terms_v(result@) == union_terms(left@.terms, right@.terms.take(i as int)),
            decreases right.terms.len() - i,
        {
            let ghost before = right@.terms.take(i as int);
            let ghost after = right@.terms.take(i + 1);
            assert(after.drop_last() =~= before);
            if !terms_contain(&result, &right.terms[i]) {
                let t = right.terms[i].clone();
                assert(t@ == right@.terms[i as int]);
                result.push(t);
                assert(terms_v(result@) =~= union_terms(left@.terms, before).push(after.last()));
            }
            i = i + 1;
        }
        assert(right@.terms.take(right.terms.len() as int) =~= right@.terms);
        result
    }
}

/// A conjunctive query: a head atom over a body of atoms.
#[derive(Debug)]
pub struct Query {
    pub head: Atom,
    pub body: Vec<Atom>,
}

/// The mathematical value of a query.
pub struct QueryV {
    pub head: AtomV,
    pub body: Seq<AtomV>,
}

/// The values of a sequence of atoms.
pub open spec fn atoms_v(atoms: Seq<Atom>) -> Seq<AtomV> {
    atoms.map_values(|a: Atom| a@)
}

impl Query {
    pub open spec fn view(&self) -> QueryV {
        QueryV { head: self.head@, body: atoms_v(self.body@) }
    }

    /// A query is boolean when its head has no terms.
    pub fn is_boolean(&self) -> (r: bool)
        ensures
            r == (self@.head.terms.len() == 0),
    {
        self.head.terms.len() == 0
    }
}

} // verus!
