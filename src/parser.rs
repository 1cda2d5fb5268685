use vstd::prelude::*;

use crate::query::{Atom, AtomV, Query, QueryV, Term, TermV, terms_v};

verus! {

/// Relies on `String::push`: it appends the character to the end of the string.
pub assume_specification[ String::push ](s: &mut String, ch: char)
    ensures
        final(s)@ == old(s)@.push(ch),
;

/// A letter or digit of ASCII.
pub open spec fn is_alnum(c: char) -> bool {
    ('a' <= c && c <= 'z') || ('A' <= c && c <= 'Z') || ('0' <= c && c <= '9')
}

/// The lower-case form of an ASCII letter; other characters are kept.
pub open spec fn ascii_lower(c: char) -> char {
    if 'A' <= c && c <= 'Z' {
        ((c as u8) + 32) as u8 as char
    } else {
        c
    }
}

pub open spec fn lower(s: Seq<char>) -> Seq<char> {
    s.map_values(|c: char| ascii_lower(c))
}

/// A name or a variable: one or more ASCII letters and digits.
pub open spec fn is_word(s: Seq<char>) -> bool {
    s.len() >= 1 && forall|i: int| 0 <= i < s.len() ==> is_alnum(#[trigger] s[i])
}

/// A term that the grammar can write: a variable is a word; a constant holds no quote.
pub open spec fn term_ok(t: TermV) -> bool {
    match t {
        TermV::Variable(v) => is_word(v),
        TermV::Constant(c) => !c.contains('\''),
    }
}

pub open spec fn render_term(t: TermV) -> Seq<char> {
    match t {
        TermV::Variable(v) => v,
        TermV::Constant(c) => seq!['\''] + c + seq!['\''],
    }
}

/// Terms separated by commas.
pub open spec fn render_terms(ts: Seq<TermV>) -> Seq<char>
    decreases ts.len(),
{
    if ts.len() == 0 {
        Seq::empty()
    } else if ts.len() == 1 {
        render_term(ts[0])
    } else {
        render_terms(ts.drop_last()) + seq![','] + render_term(ts.last())
    }
}

pub open spec fn render_atom(name: Seq<char>, terms: Seq<TermV>) -> Seq<char> {
    name + seq!['('] + render_terms(terms) + seq![')']
}

/// Atoms separated by commas, each written with its name as given in `names`.
pub open spec fn render_atoms(names: Seq<Seq<char>>, atoms: Seq<AtomV>) -> Seq<char>
    decreases atoms.len(),
{
    if atoms.len() == 0 {
        Seq::empty()
    } else if atoms.len() == 1 {
        render_atom(names[0], atoms[0].terms)
    } else {
        render_atoms(names.drop_last(), atoms.drop_last()) + seq![','] + render_atom(
            names[atoms.len() - 1],
            atoms.last().terms,
        )
    }
}

/// The text of a query: `Answer(terms):-atom,...,atom.`, each relation written as in `names`.
pub open spec fn render_query(q: QueryV, names: Seq<Seq<char>>) -> Seq<char> {
    "Answer("@ + render_terms(q.head.terms) + "):-"@ + render_atoms(names, q.body) + seq!['.']
}

/// `q` is what the grammar reads from a text whose relations are written as in `names`: the
/// head is `answer`, the body is not empty, each name is a word whose lower-case form names
/// its atom, and every term can be written.
pub open spec fn parsed_from(q: QueryV, names: Seq<Seq<char>>) -> bool {
    &&& q.head.name == "answer"@
    &&& q.body.len() >= 1
    &&& names.len() == q.body.len()
    &&& forall|k: int| 0 <= k < q.body.len() ==> is_word(#[trigger] names[k]) && lower(names[k]) == q.body[k].name
    &&& forall|i: int| 0 <= i < q.head.terms.len() ==> term_ok(#[trigger] q.head.terms[i])
    &&& forall|k: int, i: int|
        0 <= k < q.body.len() && 0 <= i < q.body[k].terms.len() ==> term_ok(#[trigger] q.body[k].terms[i])
}

/// `text` is the text of `q`, for some way of writing its relation names.
pub open spec fn is_text_of(text: Seq<char>, q: QueryV) -> bool {
    exists|names: Seq<Seq<char>>| parsed_from(q, names) && text == render_query(q, names)
}

/// The term `t` is written at position `p` of `cs`, and a variable is not followed by a
/// letter or digit.
pub open spec fn term_at(cs: Seq<char>, p: int, t: TermV) -> bool {
    let n = render_term(t).len();
    &&& term_ok(t)
    &&& 0 <= p
    &&& p + n <= cs.len()
    &&& cs.subrange(p, p + n) == render_term(t)
    &&& (t is Variable ==> (p + n == cs.len() || !is_alnum(cs[p + n])))
}

/// The terms `ts` are written at position `p` of `cs`, followed by a closing parenthesis.
pub open spec fn terms_at(cs: Seq<char>, p: int, ts: Seq<TermV>) -> bool {
    let n = render_terms(ts).len();
    &&& forall|i: int| 0 <= i < ts.len() ==> term_ok(#[trigger] ts[i])
    &&& 0 <= p
    &&& p + n < cs.len()
    &&& cs.subrange(p, p + n) == render_terms(ts)
    &&& cs[p + n] == ')'
}

/// A term that can be written starts with a quote or with a letter or digit.
pub proof fn lemma_render_term_start(t: TermV)
    requires
        term_ok(t),
    ensures
        render_term(t).len() >= 1,
        render_term(t)[0] == '\'' || is_alnum(render_term(t)[0]),
{
}

/// The terms before position `k` are written at the start of all of them, followed by a comma
/// when more terms come.
pub proof fn lemma_render_terms_prefix(ts: Seq<TermV>, k: int)
    requires
        1 <= k <= ts.len(),
    ensures
        render_terms(ts.take(k)).len() <= render_terms(ts).len(),
        render_terms(ts).subrange(0, render_terms(ts.take(k)).len() as int) == render_terms(ts.take(k)),
        k < ts.len() ==> render_terms(ts).len() > render_terms(ts.take(k)).len() && render_terms(ts)[render_terms(
            ts.take(k),
        ).len() as int] == ',',
    decreases ts.len(),
{
    if k == ts.len() {
        assert(ts.take(k) =~= ts);
    } else {
        let t = ts.drop_last();
        assert(ts.take(k) =~= t.take(k));
        lemma_render_terms_prefix(t, k);
        if k == t.len() {
            assert(t.take(k) =~= t);
        }
    }
}

/// Writing one more term adds a comma (unless it is the first) and the term.
pub proof fn lemma_render_terms_step(ts: Seq<TermV>, k: int)
    requires
        0 <= k < ts.len(),
    ensures
        render_terms(ts.take(k + 1)) == (if k == 0 {
            render_term(ts[0])
        } else {
            render_terms(ts.take(k)) + seq![','] + render_term(ts[k])
        }),
{
    assert(ts.take(k + 1).drop_last() =~= ts.take(k));
    assert(ts.take(k + 1).last() == ts[k]);
    if k == 0 {
        assert(ts.take(1)[0] == ts[0]);
    }
}

/// In a list of terms written at `p`, the term at position `k` is written where the first `k`
/// terms and a comma end.
pub proof fn lemma_term_in_list(cs: Seq<char>, p: int, ts: Seq<TermV>, k: int)
    requires
        terms_at(cs, p, ts),
        0 <= k < ts.len(),
    ensures
        ({
            let start = if k == 0 { p } else { p + render_terms(ts.take(k)).len() + 1 };
            &&& term_at(cs, start, ts[k])
            &&& start + render_term(ts[k]).len() == p + render_terms(ts.take(k + 1)).len()
        }),
{
    let whole = render_terms(ts);
    let n = whole.len();
    lemma_render_terms_step(ts, k);
    lemma_render_terms_prefix(ts, k + 1);
    let m = render_terms(ts.take(k + 1)).len();
    let start = if k == 0 { p } else { p + render_terms(ts.take(k)).len() + 1 };
    let e = render_term(ts[k]);
    assert(cs.subrange(p, p + n).subrange(0, m as int) == render_terms(ts.take(k + 1)));
    assert(cs.subrange(start, start + e.len()) =~= e) by {
        assert forall|i: int| 0 <= i < e.len() implies cs.subrange(start, start + e.len())[i] == e[i] by {
            assert(cs[start + i] == cs.subrange(p, p + n)[start + i - p]);
            assert(cs.subrange(p, p + n).subrange(0, m as int)[start + i - p] == render_terms(ts.take(k + 1))[start + i - p]);
        }
    }
    assert(term_ok(ts[k]));
    if ts[k] is Variable {
        if k + 1 < ts.len() {
            assert(cs[p + m] == cs.subrange(p, p + n)[m as int]);
            assert(whole[m as int] == ',');
        } else {
            assert(ts.take(k + 1) =~= ts);
        }
    }
}

/// The atom `name(terms)` is written at position `p` of `cs`.
pub open spec fn atom_at(cs: Seq<char>, p: int, name: Seq<char>, terms: Seq<TermV>) -> bool {
    let n = render_atom(name, terms).len();
    &&& is_word(name)
    &&& forall|i: int| 0 <= i < terms.len() ==> term_ok(#[trigger] terms[i])
    &&& 0 <= p
    &&& p + n <= cs.len()
    &&& cs.subrange(p, p + n) == render_atom(name, terms)
}

/// The atoms are written at position `p` of `cs`, their relations as in `names`, followed by
/// the final period, which ends the text.
pub open spec fn atoms_at(cs: Seq<char>, p: int, names: Seq<Seq<char>>, atoms: Seq<AtomV>) -> bool {
    let n = render_atoms(names, atoms).len();
    &&& atoms.len() >= 1
    &&& names.len() == atoms.len()
    &&& forall|k: int| 0 <= k < atoms.len() ==> is_word(#[trigger] names[k])
    &&& forall|k: int, i: int| 0 <= k < atoms.len() && 0 <= i < atoms[k].terms.len() ==> term_ok(#[trigger] atoms[k].terms[i])
    &&& 0 <= p
    &&& p + n + 1 == cs.len()
    &&& cs.subrange(p, p + n) == render_atoms(names, atoms)
    &&& cs[p + n] == '.'
}

/// The atoms before position `k` are written at the start of all of them, followed by a comma
/// when more atoms come.
pub proof fn lemma_render_atoms_prefix(names: Seq<Seq<char>>, atoms: Seq<AtomV>, k: int)
    requires
        1 <= k <= atoms.len(),
        names.len() == atoms.len(),
    ensures
        render_atoms(names.take(k), atoms.take(k)).len() <= render_atoms(names, atoms).len(),
        render_atoms(names, atoms).subrange(0, render_atoms(names.take(k), atoms.take(k)).len() as int)
            == render_atoms(names.take(k), atoms.take(k)),
        k < atoms.len() ==> render_atoms(names, atoms).len() > render_atoms(names.take(k), atoms.take(k)).len()
            && render_atoms(names, atoms)[render_atoms(names.take(k), atoms.take(k)).len() as int] == ',',
    decreases atoms.len(),
{
    if k == atoms.len() {
        assert(atoms.take(k) =~= atoms);
        assert(names.take(k) =~= names);
    } else {
        let t = atoms.drop_last();
        let tn = names.drop_last();
        assert(atoms.take(k) =~= t.take(k));
        assert(names.take(k) =~= tn.take(k));
        lemma_render_atoms_prefix(tn, t, k);
        if k == t.len() {
            assert(t.take(k) =~= t);
            assert(tn.take(k) =~= tn);
        }
    }
}

/// Writing one more atom adds a comma (unless it is the first) and the atom.
pub proof fn lemma_render_atoms_step(names: Seq<Seq<char>>, atoms: Seq<AtomV>, k: int)
    requires
        0 <= k < atoms.len(),
        names.len() == atoms.len(),
    ensures
        render_atoms(names.take(k + 1), atoms.take(k + 1)) == (if k == 0 {
            render_atom(names[0], atoms[0].terms)
        } else {
            render_atoms(names.take(k), atoms.take(k)) + seq![','] + render_atom(names[k], atoms[k].terms)
        }),
{
    assert(atoms.take(k + 1).drop_last() =~= atoms.take(k));
    assert(names.take(k + 1).drop_last() =~= names.take(k));
    assert(atoms.take(k + 1).last() == atoms[k]);
    assert(names.take(k + 1)[k] == names[k]);
    if k == 0 {
        assert(atoms.take(1)[0] == atoms[0]);
        assert(names.take(1)[0] == names[0]);
    }
}

/// In a list of atoms written at `p`, the atom at position `k` is written where the first `k`
/// atoms and a comma end.
pub proof fn lemma_atom_in_list(cs: Seq<char>, p: int, names: Seq<Seq<char>>, atoms: Seq<AtomV>, k: int)
    requires
        atoms_at(cs, p, names, atoms),
        0 <= k < atoms.len(),
    ensures
        ({
            let start = if k == 0 { p } else { p + render_atoms(names.take(k), atoms.take(k)).len() + 1 };
            &&& atom_at(cs, start, names[k], atoms[k].terms)
            &&& start + render_atom(names[k], atoms[k].terms).len() == p + render_atoms(
                names.take(k + 1),
                atoms.take(k + 1),
            ).len()
        }),
{
    let whole = render_atoms(names, atoms);
    let n = whole.len();
    lemma_render_atoms_step(names, atoms, k);
    lemma_render_atoms_prefix(names, atoms, k + 1);
    let m = render_atoms(names.take(k + 1), atoms.take(k + 1)).len();
    let start = if k == 0 { p } else { p + render_atoms(names.take(k), atoms.take(k)).len() + 1 };
    let e = render_atom(names[k], atoms[k].terms);
    assert(cs.subrange(p, p + n).subrange(0, m as int) == render_atoms(names.take(k + 1), atoms.take(k + 1)));
    assert(cs.subrange(start, start + e.len()) =~= e) by {
        assert forall|i: int| 0 <= i < e.len() implies cs.subrange(start, start + e.len())[i] == e[i] by {
            assert(cs[start + i] == cs.subrange(p, p + n)[start + i - p]);
            assert(cs.subrange(p, p + n).subrange(0, m as int)[start + i - p] == render_atoms(
                names.take(k + 1),
                atoms.take(k + 1),
            )[start + i - p]);
        }
    }
    assert forall|i: int| 0 <= i < atoms[k].terms.len() implies term_ok(#[trigger] atoms[k].terms[i]) by {
        assert(term_ok(atoms[k].terms[i]));
    }
}

/// The body atoms are written at `p`, their relations as in `names`, and each atom is named
/// by the lower-case form of its written name.
pub open spec fn body_at(cs: Seq<char>, p: int, names: Seq<Seq<char>>, atoms: Seq<AtomV>) -> bool {
    &&& atoms_at(cs, p, names, atoms)
    &&& forall|k: int| 0 <= k < atoms.len() ==> lower(#[trigger] names[k]) == atoms[k].name
}

/// The parts of the text of a query, each at its place.
pub proof fn lemma_text_parts(cs: Seq<char>, q: QueryV, names: Seq<Seq<char>>)
    requires
        parsed_from(q, names),
        cs == render_query(q, names),
    ensures
        7 <= cs.len(),
        cs.subrange(0, 7) == "Answer("@,
        terms_at(cs, 7, q.head.terms),
        7 + render_terms(q.head.terms).len() + 3 <= cs.len(),
        cs.subrange(7 + render_terms(q.head.terms).len() as int, 7 + render_terms(q.head.terms).len() as int + 3)
            == "):-"@,
        body_at(cs, 7 + render_terms(q.head.terms).len() as int + 3, names, q.body),
{
    reveal_strlit("Answer(");
    reveal_strlit("):-");
    let a = "Answer("@;
    let t = render_terms(q.head.terms);
    let m = "):-"@;
    let b = render_atoms(names, q.body);
    let nh = t.len() as int;
    let nb = b.len() as int;
    assert(cs == a + t + m + b + seq!['.']);
    assert(cs.subrange(0, 7) =~= a);
    assert(cs.subrange(7, 7 + nh) =~= t);
    assert(cs[7 + nh] == ')');
    assert(cs.subrange(7 + nh, 7 + nh + 3) =~= m);
    let start = 7 + nh + 3;
    assert(cs.subrange(start, start + nb) =~= b);
    assert(cs[start + nb] == '.');
}

/// The variable named `s`.
pub open spec fn var(s: Seq<char>) -> TermV {
    TermV::Variable(s)
}

/// The constant `s`.
pub open spec fn cst(s: Seq<char>) -> TermV {
    TermV::Constant(s)
}

/// A text that is not a query, with the position where reading stopped.
#[derive(Debug)]
pub enum ParseError {
    Invalid(usize),
}

fn chars_of(s: &str) -> (r: Vec<char>)
    ensures
        r@ == s@,
{
    let n = s.unicode_len();
    let mut r: Vec<char> = Vec::new();
    let mut i: usize = 0;
    while i < n
        invariant
            n == s@.len(),
            i <= n,
            r@ == s@.take(i as int),
        decreases n - i,
    {
        r.push(s.get_char(i));
        i = i + 1;
        assert(r@ =~= s@.take(i as int));
    }
    assert(s@.take(n as int) =~= s@);
    r
}

fn is_alnum_char(c: char) -> (r: bool)
    ensures
        r == is_alnum(c),
{
    ('a' <= c && c <= 'z') || ('A' <= c && c <= 'Z') || ('0' <= c && c <= '9')
}

fn lower_char(c: char) -> (r: char)
    ensures
        r == ascii_lower(c),
{
    if 'A' <= c && c <= 'Z' {
        let b: u8 = c as u8;
        assert(b == c as u8);
        ((b + 32) as u8) as char
    } else {
        c
    }
}

/// The characters from `from` to `to`, as a string; lower-cased when `lowercase` is set.
fn string_of(cs: &Vec<char>, from: usize, to: usize, lowercase: bool) -> (r: String)
    requires
        from <= to <= cs.len(),
    ensures
        !lowercase ==> r@ == cs@.subrange(from as int, to as int),
        lowercase ==> r@ == lower(cs@.subrange(from as int, to as int)),
{
    let mut r = String::new();
    let mut i: usize = from;
    while i < to
        invariant
            from <= i <= to <= cs.len(),
            !lowercase ==> r@ == cs@.subrange(from as int, i as int),
            lowercase ==> r@ == lower(cs@.subrange(from as int, i as int)),
        decreases to - i,
    {
        let c = if lowercase {
            lower_char(cs[i])
        } else {
            cs[i]
        };
        r.push(c);
        i = i + 1;
        assert(cs@.subrange(from as int, i as int) =~= cs@.subrange(from as int, i - 1).push(cs@[i - 1]));
        assert(lower(cs@.subrange(from as int, i as int)) =~= lower(cs@.subrange(from as int, i - 1)).push(
            ascii_lower(cs@[i - 1]),
        ));
    }
    r
}

/// The end of the run of letters and digits that starts at `p`.
fn word_end(cs: &Vec<char>, p: usize) -> (q: usize)
    requires
        p <= cs.len(),
    ensures
        p <= q <= cs.len(),
        forall|i: int| p <= i < q ==> is_alnum(#[trigger] cs@[i]),
        q < cs.len() ==> !is_alnum(cs@[q as int]),
{
    let mut q = p;
    while q < cs.len() && is_alnum_char(cs[q])
        invariant
            p <= q <= cs.len(),
            forall|i: int| p <= i < q ==> is_alnum(#[trigger] cs@[i]),
        decreases cs.len() - q,
    {
        q = q + 1;
    }
    q
}

pub open spec fn char_at_spec(cs: Seq<char>, p: int, c: char) -> bool {
    0 <= p < cs.len() && cs[p] == c
}

fn char_at(cs: &Vec<char>, p: usize, c: char) -> (r: bool)
    ensures
        r == (p < cs.len() && cs@[p as int] == c),
{
    p < cs.len() && cs[p] == c
}

/// A term at `p`: a quoted constant, or a variable.
fn parse_term(cs: &Vec<char>, p: usize) -> (r: Option<(Term, usize)>)
    requires
        p <= cs.len(),
    ensures
        r matches Some((t, q)) ==> p < q <= cs.len() && cs@.subrange(p as int, q as int) == render_term(t@)
            && term_ok(t@),
        forall|t: TermV| #[trigger] term_at(cs@, p as int, t) ==> (r matches Some((t2, q)) && t2@ == t && q == p
            + render_term(t).len()),
{
    if char_at(cs, p, '\'') {
        let mut q = p + 1;
        while q < cs.len() && cs[q] != '\''
            invariant
                p + 1 <= q <= cs.len(),
                forall|i: int| p + 1 <= i < q ==> cs@[i] != '\'',
            decreases cs.len() - q,
        {
            q = q + 1;
        }
        proof {
            assert forall|t: TermV| #[trigger] term_at(cs@, p as int, t) implies t is Constant && q == p + 1 + t->Constant_0.len()
                && cs@.subrange(p + 1, p + 1 + t->Constant_0.len()) == t->Constant_0 by {
                let n = render_term(t).len();
                if t is Variable {
                    assert(cs@.subrange(p as int, p + n)[0] == cs@[p as int]);
                    assert(is_alnum(t->Variable_0[0]));
                } else {
                    let c = t->Constant_0;
                    assert forall|k: int| 0 <= k < c.len() implies #[trigger] cs@[p + 1 + k] != '\'' by {
                        assert(cs@.subrange(p as int, p + n)[1 + k] == c[k]);
                        assert(c.contains(c[k]));
                    }
                    assert(cs@.subrange(p as int, p + n)[n - 1] == '\'');
                    assert(cs@[p + 1 + c.len()] == '\'');
                    if q < p + 1 + c.len() {
                        let k = q - p - 1;
                        assert(cs@[p + 1 + k] != '\'');
                    }
                    assert(cs@.subrange(p + 1, p + 1 + c.len()) =~= cs@.subrange(p as int, p + n).subrange(1, 1 + c.len() as int));
                }
            }
        }
        if q >= cs.len() {
            return None;
        }
        let value = string_of(cs, p + 1, q, false);
        let t = Term::Constant(value);
        assert(cs@.subrange(p as int, q + 1) =~= seq!['\''] + cs@.subrange(p + 1, q as int) + seq!['\'']);
        assert(!value@.contains('\'')) by {
            if value@.contains('\'') {
                let i = choose|i: int| 0 <= i < value@.len() && value@[i] == '\'';
                assert(cs@[p + 1 + i] == '\'');
            }
        }
        return Some((t, q + 1));
    }
    let q = word_end(cs, p);
    proof {
        assert forall|t: TermV| #[trigger] term_at(cs@, p as int, t) implies t is Variable && q == p + t->Variable_0.len()
            && cs@.subrange(p as int, p + t->Variable_0.len()) == t->Variable_0 by {
            let n = render_term(t).len();
            if t is Constant {
                assert(cs@.subrange(p as int, p + n)[0] == '\'');
                assert(cs@[p as int] == '\'');
            } else {
                let v = t->Variable_0;
                assert forall|k: int| 0 <= k < v.len() implies is_alnum(#[trigger] cs@[p + k]) by {
                    assert(cs@.subrange(p as int, p + n)[k] == v[k]);
                }
                if q < p + v.len() {
                    let k = q - p;
                    assert(is_alnum(cs@[p + k]));
                }
            }
        }
    }
    if q == p {
        return None;
    }
    let name = string_of(cs, p, q, false);
    Some((Term::Variable(name), q))
}

/// Comma-separated terms at `p`, possibly none, up to the first character that does not
/// continue the list.
fn parse_terms(cs: &Vec<char>, p: usize) -> (r: Option<(Vec<Term>, usize)>)
    requires
        p <= cs.len(),
    ensures
        r matches Some((ts, q)) ==> p <= q <= cs.len() && cs@.subrange(p as int, q as int) == render_terms(
            terms_v(ts@),
        ) && forall|i: int| 0 <= i < ts.len() ==> term_ok(#[trigger] terms_v(ts@)[i]),
        forall|ts: Seq<TermV>| #[trigger] terms_at(cs@, p as int, ts) ==> (r matches Some((ts2, q)) && terms_v(ts2@)
            == ts && q == p + render_terms(ts).len()),
{
    let mut terms: Vec<Term> = Vec::new();
    if char_at(cs, p, ')') {
        assert(cs@.subrange(p as int, p as int) =~= render_terms(terms_v(terms@)));
        proof {
            assert forall|ts: Seq<TermV>| #[trigger] terms_at(cs@, p as int, ts) implies ts.len() == 0 by {
                if ts.len() > 0 {
                    lemma_term_in_list(cs@, p as int, ts, 0);
                    lemma_render_term_start(ts[0]);
                    assert(cs@.subrange(p as int, p + render_term(ts[0]).len())[0] == cs@[p as int]);
                }
            }
            assert(terms_v(terms@) =~= Seq::<TermV>::empty());
        }
        return Some((terms, p));
    }
    proof {
        assert forall|ts: Seq<TermV>| #[trigger] terms_at(cs@, p as int, ts) implies ts.len() >= 1 && term_at(cs@, p as int, ts[0]) by {
            if ts.len() == 0 {
                assert(cs@[p + render_terms(ts).len()] == ')');
            } else {
                lemma_term_in_list(cs@, p as int, ts, 0);
            }
        }
    }
    let (t, mut q) = match parse_term(cs, p) {
        Some(x) => x,
        None => return None,
    };
    terms.push(t);
    assert(terms_v(terms@) =~= seq![t@]);
    proof {
        assert forall|ts: Seq<TermV>| #[trigger] terms_at(cs@, p as int, ts) implies terms.len() <= ts.len() && terms_v(terms@)
            == ts.take(terms.len() as int) && q == p + render_terms(ts.take(terms.len() as int)).len() by {
            lemma_term_in_list(cs@, p as int, ts, 0);
            lemma_render_terms_step(ts, 0);
            assert(terms_v(terms@) =~= ts.take(1));
        }
    }
    while char_at(cs, q, ',')
        invariant
            p < q <= cs.len(),
            terms.len() >= 1,
            cs@.subrange(p as int, q as int) == render_terms(terms_v(terms@)),
            forall|i: int| 0 <= i < terms.len() ==> term_ok(#[trigger] terms_v(terms@)[i]),
            forall|ts: Seq<TermV>| #[trigger] terms_at(cs@, p as int, ts) ==> terms.len() <= ts.len() && terms_v(terms@)
                == ts.take(terms.len() as int) && q == p + render_terms(ts.take(terms.len() as int)).len(),
        decreases cs.len() - q,
    {
        let k = terms.len();
        proof {
            assert forall|ts: Seq<TermV>| #[trigger] terms_at(cs@, p as int, ts) implies k < ts.len() && term_at(cs@, q + 1, ts[k as int]) by {
                if k == ts.len() {
                    assert(ts.take(k as int) =~= ts);
                } else {
                    lemma_term_in_list(cs@, p as int, ts, k as int);
                }
            }
        }
        let (t, q2) = match parse_term(cs, q + 1) {
            Some(x) => x,
            None => return None,
        };
        proof {
            assert forall|ts: Seq<TermV>| #[trigger] terms_at(cs@, p as int, ts) implies t@ == ts[k as int] && q2 == p + render_terms(ts.take(k + 1)).len() by {
                lemma_term_in_list(cs@, p as int, ts, k as int);
            }
        }
        let ghost before = terms_v(terms@);
        terms.push(t);
        assert(terms_v(terms@) =~= before.push(t@));
        assert(terms_v(terms@).drop_last() =~= before);
        assert(cs@.subrange(p as int, q2 as int) =~= cs@.subrange(p as int, q as int) + seq![',']
            + cs@.subrange(q + 1, q2 as int));
        proof {
            assert forall|ts: Seq<TermV>| #[trigger] terms_at(cs@, p as int, ts) implies terms.len() <= ts.len() && terms_v(terms@)
                == ts.take(terms.len() as int) by {
                assert(ts.take(k + 1) =~= ts.take(k as int).push(ts[k as int]));
            }
        }
        q = q2;
    }
    proof {
        assert forall|ts: Seq<TermV>| #[trigger] terms_at(cs@, p as int, ts) implies terms.len() == ts.len() by {
            if terms.len() < ts.len() {
                lemma_render_terms_prefix(ts, terms.len() as int);
                let n = render_terms(ts).len();
                assert(cs@[q as int] == cs@.subrange(p as int, p + n)[q - p]);
            }
        }
        assert forall|ts: Seq<TermV>| #[trigger] terms_at(cs@, p as int, ts) implies terms_v(terms@) == ts by {
            assert(ts.take(ts.len() as int) =~= ts);
        }
    }
    Some((terms, q))
}

/// An atom at `p`: a name, then its terms in parentheses. The name is lower-cased.
fn parse_atom(cs: &Vec<char>, p: usize) -> (r: Option<(Atom, usize)>)
    requires
        p <= cs.len(),
    ensures
        r matches Some((a, q)) ==> p < q <= cs.len() && exists|name: Seq<char>|
            is_word(name) && lower(name) == a@.name && cs@.subrange(p as int, q as int) == render_atom(
                name,
                a@.terms,
            ),
        r matches Some((a, q)) ==> forall|i: int| 0 <= i < a@.terms.len() ==> term_ok(#[trigger] a@.terms[i]),
        forall|name: Seq<char>, terms: Seq<TermV>| #[trigger] atom_at(cs@, p as int, name, terms) ==> (r matches Some((a, q))
            && a@.name == lower(name) && a@.terms == terms && q == p + render_atom(name, terms).len()),
{
    let e = word_end(cs, p);
    proof {
        assert forall|name: Seq<char>, terms: Seq<TermV>| #[trigger] atom_at(cs@, p as int, name, terms) implies e == p + name.len()
            && cs@.subrange(p as int, e as int) == name && char_at_spec(cs@, e as int, '(') && terms_at(cs@, e + 1, terms) by {
            let n = render_atom(name, terms).len();
            let text = render_atom(name, terms);
            assert forall|k: int| 0 <= k < name.len() implies is_alnum(#[trigger] cs@[p + k]) by {
                assert(cs@.subrange(p as int, p + n)[k] == text[k]);
                assert(text[k] == name[k]);
            }
            assert(cs@.subrange(p as int, p + n)[name.len() as int] == '(');
            if e < p + name.len() {
                let k = e - p;
                assert(is_alnum(cs@[p + k]));
            }
            assert(cs@.subrange(p as int, p + name.len()) =~= name) by {
                assert forall|k: int| 0 <= k < name.len() implies cs@.subrange(p as int, p + name.len())[k] == name[k] by {
                    assert(cs@.subrange(p as int, p + n)[k] == text[k]);
                }
            }
            let m = render_terms(terms).len();
            assert(cs@.subrange(p + name.len() + 1, p + name.len() + 1 + m) =~= render_terms(terms)) by {
                assert forall|k: int| 0 <= k < m implies cs@.subrange(p + name.len() + 1, p + name.len() + 1 + m)[k] == render_terms(terms)[k] by {
                    assert(cs@.subrange(p as int, p + n)[name.len() + 1 + k] == text[name.len() + 1 + k]);
                }
            }
            assert(cs@.subrange(p as int, p + n)[n - 1] == ')');
        }
    }
    if e == p || !char_at(cs, e, '(') {
        return None;
    }
    let name = string_of(cs, p, e, true);
    let (terms, q) = match parse_terms(cs, e + 1) {
        Some(x) => x,
        None => return None,
    };
    if !char_at(cs, q, ')') {
        return None;
    }
    let ghost raw = cs@.subrange(p as int, e as int);
    assert(cs@.subrange(p as int, q + 1) =~= raw + seq!['('] + cs@.subrange(e + 1, q as int) + seq![')']);
    let a = Atom { relation_name: name, terms };
    assert(is_word(raw));
    Some((a, q + 1))
}

/// Whether the characters at `p` spell `lit`.
fn literal_at(cs: &Vec<char>, p: usize, lit: &str) -> (r: bool)
    requires
        p <= cs.len(),
    ensures
        r == (p + lit@.len() <= cs.len() && cs@.subrange(p as int, p + lit@.len()) == lit@),
{
    let n = lit.unicode_len();
    if n > cs.len() - p {
        return false;
    }
    let mut i: usize = 0;
    while i < n
        invariant
            n == lit@.len(),
            p + n <= cs.len(),
            i <= n,
            forall|k: int| 0 <= k < i ==> cs@[p + k] == lit@[k],
        decreases n - i,
    {
        if cs[p + i] != lit.get_char(i) {
            assert(cs@.subrange(p as int, p + n)[i as int] != lit@[i as int]);
            return false;
        }
        i = i + 1;
    }
    assert(cs@.subrange(p as int, p + n) =~= lit@);
    true
}

/// Reads a query `Answer(terms):-atom,...,atom.` that spans the whole text. Relation names are
/// lower-cased; the head is named `answer`.
pub fn parse_query(input: &str) -> (r: Result<Query, ParseError>)
    ensures
        r matches Ok(q) ==> is_text_of(input@, q@),
        forall|qv: QueryV| #[trigger] is_text_of(input@, qv) ==> (r matches Ok(q) && q@ == qv),
{
    let cs = chars_of(input);
    proof {
        reveal_strlit("Answer(");
        reveal_strlit("):-");
        reveal_strlit("answer");
        assert forall|qv: QueryV| #[trigger] is_text_of(input@, qv) implies 7 <= cs.len() && cs@.subrange(0, 7) == "Answer("@
            && terms_at(cs@, 7, qv.head.terms) by {
            let names = choose|names: Seq<Seq<char>>| parsed_from(qv, names) && input@ == render_query(qv, names);
            lemma_text_parts(cs@, qv, names);
        }
    }
    if !literal_at(&cs, 0, "Answer(") {
        return Err(ParseError::Invalid(0));
    }
    let (head_terms, p) = match parse_terms(&cs, 7) {
        Some(x) => x,
        None => return Err(ParseError::Invalid(7)),
    };
    proof {
        assert forall|qv: QueryV| #[trigger] is_text_of(input@, qv) implies terms_v(head_terms@) == qv.head.terms
            && p + 3 <= cs.len() && cs@.subrange(p as int, p + 3) == "):-"@
            && exists|names: Seq<Seq<char>>| #[trigger] body_at(cs@, p + 3, names, qv.body) by {
            let names = choose|names: Seq<Seq<char>>| parsed_from(qv, names) && input@ == render_query(qv, names);
            lemma_text_parts(cs@, qv, names);
            assert(body_at(cs@, p + 3, names, qv.body));
        }
    }
    if !literal_at(&cs, p, "):-") {
        return Err(ParseError::Invalid(p));
    }
    let mut body: Vec<Atom> = Vec::new();
    let ghost mut names: Seq<Seq<char>> = Seq::empty();
    let start = p + 3;
    proof {
        assert forall|ns: Seq<Seq<char>>, atoms: Seq<AtomV>| #[trigger] body_at(cs@, start as int, ns, atoms) implies atom_at(
            cs@,
            start as int,
            ns[0],
            atoms[0].terms,
        ) by {
            lemma_atom_in_list(cs@, start as int, ns, atoms, 0);
        }
    }
    let (a, mut q) = match parse_atom(&cs, start) {
        Some(x) => x,
        None => return Err(ParseError::Invalid(start)),
    };
    proof {
        assert forall|ns: Seq<Seq<char>>, atoms: Seq<AtomV>| #[trigger] body_at(cs@, start as int, ns, atoms) implies 1 <= atoms.len()
            && seq![a@] == atoms.take(1) && q == start + render_atoms(ns.take(1), atoms.take(1)).len() by {
            lemma_atom_in_list(cs@, start as int, ns, atoms, 0);
            lemma_render_atoms_step(ns, atoms, 0);
            assert(a@ == atoms[0]);
            assert(seq![a@] =~= atoms.take(1));
        }
    }
    proof {
        let name = choose|name: Seq<char>|
            is_word(name) && lower(name) == a@.name && cs@.subrange(start as int, q as int) == render_atom(
                name,
                a@.terms,
            );
        names = seq![name];
    }
    body.push(a);
    assert(crate::query::atoms_v(body@) =~= seq![a@]);
    while char_at(&cs, q, ',')
        invariant
            start < q <= cs.len(),
            body.len() >= 1,
            names.len() == body.len(),
            cs@.subrange(start as int, q as int) == render_atoms(names, crate::query::atoms_v(body@)),
            forall|k: int| 0 <= k < body.len() ==> is_word(#[trigger] names[k]) && lower(names[k])
                == crate::query::atoms_v(body@)[k].name,
            forall|k: int, i: int|
                0 <= k < body.len() && 0 <= i < crate::query::atoms_v(body@)[k].terms.len() ==> term_ok(
                    #[trigger] crate::query::atoms_v(body@)[k].terms[i],
                ),
            forall|ns: Seq<Seq<char>>, atoms: Seq<AtomV>| #[trigger] body_at(cs@, start as int, ns, atoms) ==> body.len()
                <= atoms.len() && crate::query::atoms_v(body@) == atoms.take(body.len() as int) && q == start
                + render_atoms(ns.take(body.len() as int), atoms.take(body.len() as int)).len(),
            forall|qv: QueryV| #[trigger] is_text_of(input@, qv) ==> exists|ns: Seq<Seq<char>>| #[trigger] body_at(cs@, start as int, ns, qv.body),
        decreases cs.len() - q,
    {
        let k = body.len();
        proof {
            assert forall|ns: Seq<Seq<char>>, atoms: Seq<AtomV>| #[trigger] body_at(cs@, start as int, ns, atoms) implies k
                < atoms.len() && atom_at(cs@, q + 1, ns[k as int], atoms[k as int].terms) by {
                if k == atoms.len() {
                    assert(atoms.take(k as int) =~= atoms);
                    assert(ns.take(k as int) =~= ns);
                } else {
                    lemma_atom_in_list(cs@, start as int, ns, atoms, k as int);
                }
            }
        }
        let (a, q2) = match parse_atom(&cs, q + 1) {
            Some(x) => x,
            None => {
                proof {
                    assert forall|qv: QueryV| #[trigger] is_text_of(input@, qv) implies false by {
                        let ns = choose|ns: Seq<Seq<char>>| #[trigger] body_at(cs@, start as int, ns, qv.body);
                        assert(atom_at(cs@, q + 1, ns[k as int], qv.body[k as int].terms));
                    }
                }
                return Err(ParseError::Invalid(q + 1));
            },
        };
        proof {
            assert forall|ns: Seq<Seq<char>>, atoms: Seq<AtomV>| #[trigger] body_at(cs@, start as int, ns, atoms) implies a@
                == atoms[k as int] && q2 == start + render_atoms(ns.take(k + 1), atoms.take(k + 1)).len() by {
                lemma_atom_in_list(cs@, start as int, ns, atoms, k as int);
            }
        }
        let ghost before = crate::query::atoms_v(body@);
        let ghost old_names = names;
        proof {
            let name = choose|name: Seq<char>|
                is_word(name) && lower(name) == a@.name && cs@.subrange(q + 1, q2 as int) == render_atom(
                    name,
                    a@.terms,
                );
            names = names.push(name);
        }
        body.push(a);
        assert(crate::query::atoms_v(body@) =~= before.push(a@));
        assert(crate::query::atoms_v(body@).drop_last() =~= before);
        assert(names.drop_last() =~= old_names);
        assert(names[names.len() - 1] == names.last());
        assert(cs@.subrange(start as int, q2 as int) =~= cs@.subrange(start as int, q as int) + seq![',']
            + cs@.subrange(q + 1, q2 as int));
        proof {
            assert forall|ns: Seq<Seq<char>>, atoms: Seq<AtomV>| #[trigger] body_at(cs@, start as int, ns, atoms) implies body.len()
                <= atoms.len() && crate::query::atoms_v(body@) == atoms.take(body.len() as int) by {
                assert(atoms.take(k + 1) =~= atoms.take(k as int).push(atoms[k as int]));
            }
        }
        q = q2;
    }
    proof {
        assert forall|ns: Seq<Seq<char>>, atoms: Seq<AtomV>| #[trigger] body_at(cs@, start as int, ns, atoms) implies body.len()
            == atoms.len() && crate::query::atoms_v(body@) == atoms && char_at_spec(cs@, q as int, '.') && q + 1 == cs.len() by {
            if body.len() < atoms.len() {
                lemma_render_atoms_prefix(ns, atoms, body.len() as int);
                let n = render_atoms(ns, atoms).len();
                assert(cs@[q as int] == cs@.subrange(start as int, start + n)[q - start]);
            }
            assert(atoms.take(atoms.len() as int) =~= atoms);
            assert(ns.take(ns.len() as int) =~= ns);
        }
    }
    if !(char_at(&cs, q, '.') && q + 1 == cs.len()) {
        return Err(ParseError::Invalid(q));
    }
    let head = Atom { relation_name: string_of(&cs, 0, 6, true), terms: head_terms };
    let query = Query { head, body };
    proof {
        assert(cs@.subrange(0, 6) =~= "Answer("@.subrange(0, 6));
        assert(lower(cs@.subrange(0, 6)) =~= "answer"@);
        assert(cs@ =~= "Answer("@ + cs@.subrange(7, p as int) + "):-"@ + cs@.subrange(start as int, q as int)
            + seq!['.']);
        assert(query@.head.terms == terms_v(head_terms@));
        assert(query@.body == crate::query::atoms_v(body@));
        assert(parsed_from(query@, names));
        assert(input@ == render_query(query@, names));
        assert(is_text_of(input@, query@));
        assert forall|qv: QueryV| #[trigger] is_text_of(input@, qv) implies query@ == qv by {
            let ns = choose|ns: Seq<Seq<char>>| body_at(cs@, start as int, ns, qv.body);
            assert(query@.head == qv.head);
        }
    }
    Ok(query)
}

/// The query of the second example: the name, latitude and longitude of each brewery at
/// address 'Westmalle'.
pub fn get_query_2() -> (r: Query)
    ensures
        r@ == example_two_v(),
{
    let head = Atom {
        relation_name: String::from_str("Answer"),
        terms: vec![
            Term::Variable(String::from_str("x")),
            Term::Variable(String::from_str("y")),
            Term::Variable(String::from_str("z")),
        ],
    };
    let breweries = Atom {
        relation_name: String::from_str("breweries"),
        terms: vec![
            Term::Variable(String::from_str("w")),
            Term::Variable(String::from_str("x")),
            Term::Constant(String::from_str("Westmalle")),
            Term::Variable(String::from_str("u1")),
            Term::Variable(String::from_str("u2")),
            Term::Variable(String::from_str("u3")),
            Term::Variable(String::from_str("u4")),
            Term::Variable(String::from_str("u5")),
            Term::Variable(String::from_str("u6")),
            Term::Variable(String::from_str("u7")),
            Term::Variable(String::from_str("u8")),
        ],
    };
    let locations = Atom {
        relation_name: String::from_str("locations"),
        terms: vec![
            Term::Variable(String::from_str("u9")),
            Term::Variable(String::from_str("w")),
            Term::Variable(String::from_str("y")),
            Term::Variable(String::from_str("z")),
            Term::Variable(String::from_str("u10")),
        ],
    };
    assert(head@.terms =~= example_two_v().head.terms);
    assert(breweries@.terms =~= example_two_v().body[0].terms);
    assert(locations@.terms =~= example_two_v().body[1].terms);
    let q = Query { head, body: vec![breweries, locations] };
    assert(q@.body =~= example_two_v().body);
    q
}

/// The boolean query of the first example: is there a beer of strength 0.07 with a style, a
/// category, and a brewery that has a location?
pub fn get_query_1() -> (r: Query)
    ensures
        r@ == example_one_v(),
{
    let head = Atom { relation_name: String::from_str("answer"), terms: vec![] };
    let beers = Atom {
        relation_name: String::from_str("beers"),
        terms: vec![
            Term::Variable(String::from_str("u1")),
            Term::Variable(String::from_str("x")),
            Term::Variable(String::from_str("u2")),
            Term::Constant(String::from_str("0.07")),
            Term::Variable(String::from_str("u3")),
            Term::Variable(String::from_str("u4")),
            Term::Variable(String::from_str("y")),
            Term::Variable(String::from_str("u5")),
        ],
    };
    let styles = Atom {
        relation_name: String::from_str("styles"),
        terms: vec![
            Term::Variable(String::from_str("u6")),
            Term::Variable(String::from_str("z")),
            Term::Variable(String::from_str("y")),
        ],
    };
    let categories = Atom {
        relation_name: String::from_str("categories"),
        terms: vec![
            Term::Variable(String::from_str("z")),
            Term::Variable(String::from_str("u7")),
        ],
    };
    let breweries = Atom {
        relation_name: String::from_str("breweries"),
        terms: vec![
            Term::Variable(String::from_str("x")),
            Term::Variable(String::from_str("u12")),
            Term::Variable(String::from_str("u13")),
            Term::Variable(String::from_str("u14")),
            Term::Variable(String::from_str("u15")),
            Term::Variable(String::from_str("u16")),
            Term::Variable(String::from_str("u17")),
            Term::Variable(String::from_str("u18")),
            Term::Variable(String::from_str("u13")),
            Term::Variable(String::from_str("u14")),
            Term::Variable(String::from_str("u15")),
        ],
    };
    assert(head@.terms =~= example_one_v().head.terms);
    assert(beers@.terms =~= example_one_v().body[0].terms);
    assert(styles@.terms =~= example_one_v().body[1].terms);
    assert(categories@.terms =~= example_one_v().body[2].terms);
    assert(breweries@.terms =~= example_one_v().body[3].terms);
    let q = Query { head, body: vec![beers, styles, categories, breweries] };
    assert(q@.body =~= example_one_v().body);
    q
}

/// A query over beers, styles and categories that asks for the beer identifiers.
pub fn get_query() -> (r: Query)
    ensures
        r@ == beer_ids_v(),
{
    let head = Atom {
        relation_name: String::from_str("answer"),
        terms: vec![Term::Variable(String::from_str("beer_id"))],
    };
    let beers = Atom {
        relation_name: String::from_str("beers"),
        terms: vec![
            Term::Variable(String::from_str("beer_id")),
            Term::Variable(String::from_str("brew_id")),
            Term::Variable(String::from_str("beer")),
            Term::Variable(String::from_str("abv")),
            Term::Variable(String::from_str("ibu")),
            Term::Variable(String::from_str("ounces")),
            Term::Variable(String::from_str("style")),
            Term::Variable(String::from_str("style2")),
        ],
    };
    let styles = Atom {
        relation_name: String::from_str("styles"),
        terms: vec![
            Term::Variable(String::from_str("style_id")),
            Term::Variable(String::from_str("cat_id")),
            Term::Variable(String::from_str("style")),
        ],
    };
    let categories = Atom {
        relation_name: String::from_str("categories"),
        terms: vec![
            Term::Variable(String::from_str("cat_id")),
            Term::Variable(String::from_str("cat_name")),
        ],
    };
    assert(head@.terms =~= beer_ids_v().head.terms);
    assert(beers@.terms =~= beer_ids_v().body[0].terms);
    assert(styles@.terms =~= beer_ids_v().body[1].terms);
    assert(categories@.terms =~= beer_ids_v().body[2].terms);
    let q = Query { head, body: vec![beers, styles, categories] };
    assert(q@.body =~= beer_ids_v().body);
    q
}

/// The query of the second example, as a value.
pub open spec fn example_two_v() -> QueryV {
    QueryV { head: AtomV { name: "Answer"@, terms: seq![var("x"@), var("y"@), var("z"@)] }, body: seq![AtomV { name: "breweries"@, terms: seq![var("w"@), var("x"@), cst("Westmalle"@), var("u1"@), var("u2"@), var("u3"@), var("u4"@), var("u5"@), var("u6"@), var("u7"@), var("u8"@)] }, AtomV { name: "locations"@, terms: seq![var("u9"@), var("w"@), var("y"@), var("z"@), var("u10"@)] }] }
}

/// The boolean query of the first example, as a value.
pub open spec fn example_one_v() -> QueryV {
    QueryV { head: AtomV { name: "answer"@, terms: seq![] }, body: seq![AtomV { name: "beers"@, terms: seq![var("u1"@), var("x"@), var("u2"@), cst("0.07"@), var("u3"@), var("u4"@), var("y"@), var("u5"@)] }, AtomV { name: "styles"@, terms: seq![var("u6"@), var("z"@), var("y"@)] }, AtomV { name: "categories"@, terms: seq![var("z"@), var("u7"@)] }, AtomV { name: "breweries"@, terms: seq![var("x"@), var("u12"@), var("u13"@), var("u14"@), var("u15"@), var("u16"@), var("u17"@), var("u18"@), var("u13"@), var("u14"@), var("u15"@)] }] }
}

/// The query for beer identifiers, as a value.
pub open spec fn beer_ids_v() -> QueryV {
    QueryV { head: AtomV { name: "answer"@, terms: seq![var("beer_id"@)] }, body: seq![AtomV { name: "beers"@, terms: seq![var("beer_id"@), var("brew_id"@), var("beer"@), var("abv"@), var("ibu"@), var("ounces"@), var("style"@), var("style2"@)] }, AtomV { name: "styles"@, terms: seq![var("style_id"@), var("cat_id"@), var("style"@)] }, AtomV { name: "categories"@, terms: seq![var("cat_id"@), var("cat_name"@)] }] }
}

} // verus!
