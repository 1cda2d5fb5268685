use vstd::prelude::*;

use crate::query::{Term, TermV, terms_v};

verus! {

/// Two cells are equal when both hold a value and the values agree; a missing value equals nothing.
pub open spec fn cell_eq(a: Option<String>, b: Option<String>) -> bool {
    a is Some && b is Some && a->0@ == b->0@
}

/// A cell holds exactly the given value.
pub open spec fn cell_is(a: Option<String>, c: Seq<char>) -> bool {
    a is Some && a->0@ == c
}

/// The mathematical value of a table: a name, the attribute names, and the rows in order.
pub struct TableV {
    pub name: Seq<char>,
    pub schema: Seq<Seq<char>>,
    pub rows: Seq<Seq<Option<String>>>,
}

impl TableV {
    /// Every row has one cell per attribute.
    pub open spec fn wf(self) -> bool {
        forall|i: int| 0 <= i < self.rows.len() ==> (#[trigger] self.rows[i]).len() == self.schema.len()
    }
}

pub open spec fn strings_v(s: Seq<String>) -> Seq<Seq<char>> {
    s.map_values(|x: String| x@)
}

pub open spec fn rows_v(r: Seq<Vec<Option<String>>>) -> Seq<Seq<Option<String>>> {
    r.map_values(|x: Vec<Option<String>>| x@)
}

/// A named table of rows over an ordered list of attribute names; a missing value is `None`.
#[derive(Debug)]
pub struct Table {
    pub name: String,
    pub schema: Vec<String>,
    pub rows: Vec<Vec<Option<String>>>,
}

impl Table {
    pub open spec fn view(&self) -> TableV {
        TableV { name: self.name@, schema: strings_v(self.schema@), rows: rows_v(self.rows@) }
    }

    pub open spec fn wf(&self) -> bool {
        self@.wf()
    }
}

pub fn clone_cell(c: &Option<String>) -> (r: Option<String>)
    ensures
        r == *c,
{
    match c {
        Some(s) => Some(s.clone()),
        None => None,
    }
}

pub fn clone_row(row: &Vec<Option<String>>) -> (r: Vec<Option<String>>)
    ensures
        r@ == row@,
{
    let mut r: Vec<Option<String>> = Vec::new();
    let mut i: usize = 0;
    while i < row.len()
        invariant
            i <= row.len(),
            r@ == row@.take(i as int),
        decreases row.len() - i,
    {
        r.push(clone_cell(&row[i]));
        i = i + 1;
        assert(r@ =~= row@.take(i as int));
    }
    assert(row@.take(row.len() as int) =~= row@);
    r
}

pub fn clone_strings(v: &Vec<String>) -> (r: Vec<String>)
    ensures
        r@ == v@,
{
    let mut r: Vec<String> = Vec::new();
    let mut i: usize = 0;
    while i < v.len()
        invariant
            i <= v.len(),
            r@ == v@.take(i as int),
        decreases v.len() - i,
    {
        r.push(v[i].clone());
        i = i + 1;
        assert(r@ =~= v@.take(i as int));
    }
    assert(v@.take(v.len() as int) =~= v@);
    r
}

pub fn clone_rows(rows: &Vec<Vec<Option<String>>>) -> (r: Vec<Vec<Option<String>>>)
    ensures
        rows_v(r@) == rows_v(rows@),
        r.len() == rows.len(),
{
    let mut r: Vec<Vec<Option<String>>> = Vec::new();
    let mut i: usize = 0;
    while i < rows.len()
        invariant
            i <= rows.len(),
            r.len() == i,
            forall|k: int| 0 <= k < i ==> (#[trigger] r@[k])@ == rows@[k]@,
        decreases rows.len() - i,
    {
        r.push(clone_row(&rows[i]));
        i = i + 1;
    }
    assert(rows_v(r@) =~= rows_v(rows@));
    r
}

impl Clone for Table {
    fn clone(&self) -> (r: Self)
        ensures
            r@ == self@,
    {
        Table {
            name: self.name.clone(),
            schema: clone_strings(&self.schema),
            rows: clone_rows(&self.rows),
        }
    }
}

/// The position of the first attribute with the given name, or -1 when there is none.
pub open spec fn index_of(schema: Seq<Seq<char>>, name: Seq<char>) -> int
    decreases schema.len(),
{
    if schema.len() == 0 {
        -1
    } else {
        let k = index_of(schema.drop_last(), name);
        if k >= 0 {
            k
        } else if schema.last() == name {
            schema.len() - 1
        } else {
            -1
        }
    }
}

pub proof fn lemma_index_of(schema: Seq<Seq<char>>, name: Seq<char>)
    ensures
        -1 <= index_of(schema, name) < schema.len(),
        index_of(schema, name) >= 0 ==> schema[index_of(schema, name)] == name,
        forall|j: int| 0 <= j < schema.len() && schema[j] == name ==> index_of(schema, name) != -1 && index_of(schema, name) <= j,
        index_of(schema, name) == -1 <==> !schema.contains(name),
    decreases schema.len(),
{
    if schema.len() > 0 {
        let s = schema.drop_last();
        lemma_index_of(s, name);
        let k = index_of(schema, name);
        assert forall|j: int| 0 <= j < schema.len() && schema[j] == name implies k != -1 && k <= j by {
            if j < schema.len() - 1 {
                assert(s[j] == name);
            }
        }
        if k >= 0 {
            assert(schema.contains(name)) by {
                assert(schema[k] == name);
            }
        }
    }
}

/// The columns that `project` keeps for a list of terms: a variable names the first attribute
/// with its name (and is skipped when there is none); a constant keeps the column at its own
/// position in the list, when the table has one there.
pub open spec fn project_indices(attr: Seq<TermV>, schema: Seq<Seq<char>>) -> Seq<int>
    decreases attr.len(),
{
    if attr.len() == 0 {
        Seq::empty()
    } else {
        let prefix = project_indices(attr.drop_last(), schema);
        match attr.last() {
            TermV::Variable(v) => {
                if index_of(schema, v) >= 0 {
                    prefix.push(index_of(schema, v))
                } else {
                    prefix
                }
            },
            TermV::Constant(_) => {
                if attr.len() - 1 < schema.len() {
                    prefix.push(attr.len() - 1)
                } else {
                    prefix
                }
            },
        }
    }
}

pub proof fn lemma_project_indices_in_range(attr: Seq<TermV>, schema: Seq<Seq<char>>)
    ensures
        forall|k: int|
            0 <= k < project_indices(attr, schema).len() ==> 0 <= #[trigger] project_indices(
                attr,
                schema,
            )[k] < schema.len(),
        project_indices(attr, schema).len() <= attr.len(),
    decreases attr.len(),
{
    if attr.len() > 0 {
        lemma_project_indices_in_range(attr.drop_last(), schema);
        match attr.last() {
            TermV::Variable(v) => {
                lemma_index_of(schema, v);
            },
            TermV::Constant(_) => {},
        }
    }
}

/// Each variable among `terms` names an attribute of `schema`.
pub open spec fn vars_named(terms: Seq<TermV>, schema: Seq<Seq<char>>) -> bool {
    forall|i: int| 0 <= i < terms.len() && (#[trigger] terms[i]) is Variable ==> schema.contains(terms[i]->Variable_0)
}

/// Whether each variable among the terms names an attribute of the table.
pub fn vars_named_in(terms: &Vec<Term>, table: &Table) -> (r: bool)
    ensures
        r == vars_named(terms_v(terms@), table@.schema),
{
    let ghost ts = terms_v(terms@);
    let mut i: usize = 0;
    while i < terms.len()
        invariant
            ts == terms_v(terms@),
            i <= terms.len(),
            forall|k: int| 0 <= k < i && (#[trigger] ts[k]) is Variable ==> table@.schema.contains(ts[k]->Variable_0),
        decreases terms.len() - i,
    {
        assert(ts[i as int] == terms@[i as int]@);
        match &terms[i] {
            Term::Variable(v) => {
                if schema_index_of(&table.schema, v).is_none() {
                    proof {
                        lemma_index_of(table@.schema, v@);
                    }
                    return false;
                }
                proof {
                    lemma_index_of(table@.schema, v@);
                }
            },
            Term::Constant(_) => {},
        }
        i = i + 1;
    }
    true
}

/// The table made of the given columns, in the given order.
pub open spec fn projection_v(idx: Seq<int>, t: TableV) -> TableV {
    TableV {
        name: t.name,
        schema: idx.map_values(|k: int| t.schema[k]),
        rows: t.rows.map_values(|r: Seq<Option<String>>| idx.map_values(|k: int| r[k])),
    }
}

/// The projection of a table onto a list of terms, columns found as `project_indices` says.
pub open spec fn project_v(attr: Seq<TermV>, t: TableV) -> TableV {
    projection_v(project_indices(attr, t.schema), t)
}

/// The rows of `a` whose first cell equals the first cell of some row of `b`.
pub open spec fn intersection_v(a: TableV, b: TableV) -> TableV {
    TableV {
        name: a.name,
        schema: a.schema,
        rows: a.rows.filter(|r: Seq<Option<String>>| exists|j: int| 0 <= j < b.rows.len() && cell_eq(r[0], #[trigger] b.rows[j][0])),
    }
}

/// One more element of a sequence seen by a filter.
pub proof fn lemma_filter_step<A>(s: Seq<A>, p: spec_fn(A) -> bool, i: int)
    requires
        0 <= i < s.len(),
    ensures
        s.take(i + 1).filter(p) == (if p(s[i]) {
            s.take(i).filter(p).push(s[i])
        } else {
            s.take(i).filter(p)
        }),
{
    reveal(Seq::filter);
    assert(s.take(i + 1).drop_last() =~= s.take(i));
}

/// Keeps the rows whose mask entry is set, in order.
pub fn filter_rows(
    rows: &Vec<Vec<Option<String>>>,
    mask: &Vec<bool>,
    Ghost(p): Ghost<spec_fn(Seq<Option<String>>) -> bool>,
) -> (r: Vec<Vec<Option<String>>>)
    requires
        mask.len() == rows.len(),
        forall|k: int| 0 <= k < rows.len() ==> mask@[k] == p(#[trigger] rows@[k]@),
    ensures
        rows_v(r@) == rows_v(rows@).filter(p),
{
    let ghost rv = rows_v(rows@);
    let mut out: Vec<Vec<Option<String>>> = Vec::new();
    let mut i: usize = 0;
    while i < rows.len()
        invariant
            rv == rows_v(rows@),
            mask.len() == rows.len(),
            forall|k: int| 0 <= k < rows.len() ==> mask@[k] == p(#[trigger] rows@[k]@),
            i <= rows.len(),
            rows_v(out@) == rv.take(i as int).filter(p),
        decreases rows.len() - i,
    {
        proof {
            lemma_filter_step(rv, p, i as int);
            assert(rv[i as int] == rows@[i as int]@);
        }
        if mask[i] {
            let row = clone_row(&rows[i]);
            out.push(row);
            assert(rows_v(out@) =~= rv.take(i as int).filter(p).push(rv[i as int]));
        }
        i = i + 1;
    }
    assert(rv.take(rows.len() as int) =~= rv);
    out
}

/// Whether two cells are equal, a missing value equal to nothing.
pub fn cells_equal(a: &Option<String>, b: &Option<String>) -> (r: bool)
    ensures
        r == cell_eq(*a, *b),
{
    match a {
        Some(x) => match b {
            Some(y) => String::eq(x, y),
            None => false,
        },
        None => false,
    }
}

/// Selects cells of one row by position.
fn pick_cells(row: &Vec<Option<String>>, indices: &Vec<usize>) -> (r: Vec<Option<String>>)
    requires
        forall|k: int| 0 <= k < indices.len() ==> indices@[k] < row.len(),
    ensures
        r@ == indices@.map_values(|k: usize| k as int).map_values(|k: int| row@[k]),
{
    let mut r: Vec<Option<String>> = Vec::new();
    let mut i: usize = 0;
    while i < indices.len()
        invariant
            i <= indices.len(),
            forall|k: int| 0 <= k < indices.len() ==> indices@[k] < row.len(),
            r.len() == i,
            forall|k: int| 0 <= k < i ==> r@[k] == row@[indices@[k] as int],
        decreases indices.len() - i,
    {
        r.push(clone_cell(&row[indices[i]]));
        i = i + 1;
    }
    assert(r@ =~= indices@.map_values(|k: usize| k as int).map_values(|k: int| row@[k]));
    r
}

impl Table {
    /// A table with the given name, no attributes and no rows.
    pub fn new_empty(name: String) -> (r: Table)
        ensures
            r@ == (TableV { name: name@, schema: Seq::empty(), rows: Seq::empty() }),
            r.wf(),
    {
        let r = Table { name, schema: Vec::new(), rows: Vec::new() };
        assert(r@.schema =~= Seq::empty());
        assert(r@.rows =~= Seq::empty());
        r
    }

    pub fn set_name(&mut self, name: &str)
        ensures
            final(self)@ == (TableV { name: name@, ..old(self)@ }),
    {
        self.name = name.to_owned();
    }

    /// Replaces the attribute names and rows, keeping the name.
    pub fn set_data(&mut self, schema: Vec<String>, rows: Vec<Vec<Option<String>>>)
        ensures
            final(self)@ == (TableV { name: old(self)@.name, schema: strings_v(schema@), rows: rows_v(rows@) }),
    {
        self.schema = schema;
        self.rows = rows;
    }

    pub fn is_empty(&self) -> (r: bool)
        ensures
            r == (self@.rows.len() == 0),
    {
        self.rows.len() == 0
    }

    /// The cells of one column, top to bottom; `None` when there is no such column.
    pub fn get_column(&self, index: &usize) -> (r: Option<Vec<Option<String>>>)
        requires
            self.wf(),
        ensures
            r is Some <==> *index < self@.schema.len(),
            r is Some ==> r->0@ == self@.rows.map_values(|row: Seq<Option<String>>| row[*index as int]),
    {
        if *index >= self.schema.len() {
            return None;
        }
        let mut col: Vec<Option<String>> = Vec::new();
        let mut i: usize = 0;
        while i < self.rows.len()
            invariant
                self.wf(),
                *index < self.schema.len(),
                i <= self.rows.len(),
                col.len() == i,
                forall|k: int| 0 <= k < i ==> col@[k] == self@.rows[k][*index as int],
            decreases self.rows.len() - i,
        {
            assert(self@.rows[i as int] == self.rows@[i as int]@);
            col.push(clone_cell(&self.rows[i][*index]));
            i = i + 1;
        }
        assert(col@ =~= self@.rows.map_values(|row: Seq<Option<String>>| row[*index as int]));
        Some(col)
    }

    /// The table made of the columns at the given positions, in that order.
    pub fn projection(&self, indices: &Vec<usize>) -> (r: Table)
        requires
            self.wf(),
            forall|k: int| 0 <= k < indices.len() ==> indices@[k] < self@.schema.len(),
        ensures
            r@ == projection_v(indices@.map_values(|k: usize| k as int), self@),
            r.wf(),
    {
        let ghost idx = indices@.map_values(|k: usize| k as int);
        let mut schema: Vec<String> = Vec::new();
        let mut i: usize = 0;
        while i < indices.len()
            invariant
                forall|k: int| 0 <= k < indices.len() ==> indices@[k] < self@.schema.len(),
                i <= indices.len(),
                schema.len() == i,
                forall|k: int| 0 <= k < i ==> (#[trigger] schema@[k])@ == self@.schema[indices@[k] as int],
            decreases indices.len() - i,
        {
            schema.push(self.schema[indices[i]].clone());
            i = i + 1;
        }
        let mut rows: Vec<Vec<Option<String>>> = Vec::new();
        let mut j: usize = 0;
        while j < self.rows.len()
            invariant
                self.wf(),
                idx == indices@.map_values(|k: usize| k as int),
                forall|k: int| 0 <= k < indices.len() ==> indices@[k] < self@.schema.len(),
                j <= self.rows.len(),
                rows.len() == j,
                forall|k: int| 0 <= k < j ==> (#[trigger] rows@[k])@ == idx.map_values(|c: int| self@.rows[k][c]),
            decreases self.rows.len() - j,
        {
            assert(self@.rows[j as int] == self.rows@[j as int]@);
            let row = pick_cells(&self.rows[j], indices);
            assert(row@ =~= idx.map_values(|c: int| self@.rows[j as int][c]));
            rows.push(row);
            j = j + 1;
        }
        let r = Table { name: self.name.clone(), schema, rows };
        assert(r@.schema =~= idx.map_values(|k: int| self@.schema[k]));
        assert(r@.rows =~= self@.rows.map_values(|row: Seq<Option<String>>| idx.map_values(|k: int| row[k])));
        r
    }
}

/// Whether some row of `rows` has a first cell equal to `key`.
fn first_key_occurs(key: &Option<String>, rows: &Vec<Vec<Option<String>>>) -> (r: bool)
    requires
        forall|j: int| 0 <= j < rows.len() ==> (#[trigger] rows@[j]).len() >= 1,
    ensures
        r == exists|j: int| 0 <= j < rows.len() && cell_eq(*key, #[trigger] rows@[j]@[0]),
{
    let mut j: usize = 0;
    while j < rows.len()
        invariant
            j <= rows.len(),
            forall|j: int| 0 <= j < rows.len() ==> (#[trigger] rows@[j]).len() >= 1,
            forall|k: int| 0 <= k < j ==> !cell_eq(*key, #[trigger] rows@[k]@[0]),
        decreases rows.len() - j,
    {
        if cells_equal(key, &rows[j][0]) {
            return true;
        }
        j = j + 1;
    }
    false
}

impl Table {
    /// The rows of `self` whose first cell equals the first cell of some row of `table`.
    pub fn intersection(&self, table: &Table) -> (r: Table)
        requires
            self.wf(),
            table.wf(),
            self@.schema.len() >= 1,
            table@.schema.len() >= 1,
        ensures
            r@ == intersection_v(self@, table@),
            r.wf(),
    {
        let ghost tv = table@;
        let ghost p = |r: Seq<Option<String>>| exists|j: int| 0 <= j < tv.rows.len() && cell_eq(r[0], #[trigger] tv.rows[j][0]);
        assert forall|j: int| 0 <= j < table.rows.len() implies (#[trigger] table.rows@[j]).len() >= 1 by {
            assert(table@.rows[j] == table.rows@[j]@);
        }
        let mut mask: Vec<bool> = Vec::new();
        let mut i: usize = 0;
        while i < self.rows.len()
            invariant
                self.wf(),
                self@.schema.len() >= 1,
                forall|j: int| 0 <= j < table.rows.len() ==> (#[trigger] table.rows@[j]).len() >= 1,
                i <= self.rows.len(),
                mask.len() == i,
                forall|k: int| 0 <= k < i ==> #[trigger] mask@[k] == exists|j: int| 0 <= j < table.rows.len() && cell_eq(self.rows@[k]@[0], #[trigger] table.rows@[j]@[0]),
            decreases self.rows.len() - i,
        {
            assert(self@.rows[i as int] == self.rows@[i as int]@);
            let found = first_key_occurs(&self.rows[i][0], &table.rows);
            mask.push(found);
            i = i + 1;
        }
        assert forall|k: int| 0 <= k < self.rows.len() implies mask@[k] == p(#[trigger] self.rows@[k]@) by {
            if mask@[k] {
                let j = choose|j: int| 0 <= j < table.rows.len() && cell_eq(self.rows@[k]@[0], #[trigger] table.rows@[j]@[0]);
                assert(tv.rows[j] == table.rows@[j]@);
            }
            if p(self.rows@[k]@) {
                let j = choose|j: int| 0 <= j < tv.rows.len() && cell_eq(self.rows@[k]@[0], #[trigger] tv.rows[j][0]);
                assert(tv.rows[j] == table.rows@[j]@);
            }
        }
        let rows = filter_rows(&self.rows, &mask, Ghost(p));
        let r = Table { name: self.name.clone(), schema: clone_strings(&self.schema), rows };
        proof {
            lemma_filter_wf(self@, p);
        }
        r
    }
}

/// Each element that a filter keeps is an element of the sequence that satisfies the predicate.
pub proof fn lemma_filter_elements<A>(s: Seq<A>, p: spec_fn(A) -> bool)
    ensures
        forall|i: int| 0 <= i < s.filter(p).len() ==> s.contains(#[trigger] s.filter(p)[i]) && p(s.filter(p)[i]),
        s.filter(p).len() <= s.len(),
    decreases s.len(),
{
    reveal(Seq::filter);
    if s.len() > 0 {
        let t = s.drop_last();
        lemma_filter_elements(t, p);
        assert forall|i: int| 0 <= i < s.filter(p).len() implies s.contains(#[trigger] s.filter(p)[i]) && p(s.filter(p)[i]) by {
            if i < t.filter(p).len() {
                assert(s.filter(p)[i] == t.filter(p)[i]);
                let k = choose|k: int| 0 <= k < t.len() && t[k] == t.filter(p)[i];
                assert(s[k] == t[k]);
            } else {
                assert(s.filter(p)[i] == s.last());
                assert(s[s.len() - 1] == s.last());
            }
        }
    }
}

/// Filtering the rows of a well-formed table leaves it well formed.
pub proof fn lemma_filter_wf(t: TableV, p: spec_fn(Seq<Option<String>>) -> bool)
    requires
        t.wf(),
    ensures
        (TableV { rows: t.rows.filter(p), ..t }).wf(),
{
    lemma_filter_elements(t.rows, p);
    assert forall|i: int| 0 <= i < t.rows.filter(p).len() implies (#[trigger] t.rows.filter(p)[i]).len() == t.schema.len() by {
        assert(t.rows.contains(t.rows.filter(p)[i]));
    }
}

/// The position of the first attribute with the given name.
pub fn schema_index_of(schema: &Vec<String>, name: &String) -> (r: Option<usize>)
    ensures
        r is Some <==> index_of(strings_v(schema@), name@) >= 0,
        r is Some ==> r->0 as int == index_of(strings_v(schema@), name@),
{
    let ghost sv = strings_v(schema@);
    proof {
        lemma_index_of(sv, name@);
    }
    let mut i: usize = 0;
    while i < schema.len()
        invariant
            sv == strings_v(schema@),
            i <= schema.len(),
            forall|k: int| 0 <= k < i ==> sv[k] != name@,
            -1 <= index_of(sv, name@) < sv.len(),
            index_of(sv, name@) >= 0 ==> sv[index_of(sv, name@)] == name@,
            forall|j: int| 0 <= j < sv.len() && sv[j] == name@ ==> index_of(sv, name@) != -1 && index_of(sv, name@) <= j,
        decreases schema.len() - i,
    {
        if String::eq(&schema[i], name) {
            assert(sv[i as int] == name@);
            return Some(i);
        }
        i = i + 1;
    }
    None
}

impl Table {
    /// The projection onto a list of terms: a variable keeps the first column of its name, a
    /// constant keeps the column at its own position in the list. Each variable must name a
    /// column.
    pub fn project(&self, attr: &[Term]) -> (r: Table)
        requires
            self.wf(),
            vars_named(terms_v(attr@), self@.schema),
        ensures
            r@ == project_v(terms_v(attr@), self@),
            r.wf(),
    {
        self.project_available(attr)
    }

    /// The projection onto the terms of `attr` that the table has: a variable keeps the first
    /// column of its name and is left out when no column has it; a constant keeps the column at
    /// its own position in the list, when there is one.
    pub fn project_available(&self, attr: &[Term]) -> (r: Table)
        requires
            self.wf(),
        ensures
            r@ == project_v(terms_v(attr@), self@),
            r.wf(),
    {
        let ghost a = terms_v(attr@);
        let mut indices: Vec<usize> = Vec::new();
        let mut i: usize = 0;
        while i < attr.len()
            invariant
                a == terms_v(attr@),
                i <= attr.len(),
                indices@.map_values(|k: usize| k as int) == project_indices(a.take(i as int), self@.schema),
            decreases attr.len() - i,
        {
            let ghost before = a.take(i as int);
            let ghost after = a.take(i + 1);
            assert(after.drop_last() =~= before);
            assert(after.last() == attr@[i as int]@);
            match &attr[i] {
                Term::Variable(name) => {
                    if let Some(k) = schema_index_of(&self.schema, name) {
                        indices.push(k);
                    }
                },
                Term::Constant(_) => {
                    if i < self.schema.len() {
                        indices.push(i);
                    }
                },
            }
            assert(indices@.map_values(|k: usize| k as int) =~= project_indices(after, self@.schema));
            i = i + 1;
        }
        assert(a.take(attr.len() as int) =~= a);
        proof {
            lemma_project_indices_in_range(a, self@.schema);
            assert forall|k: int| 0 <= k < indices.len() implies indices@[k] < self@.schema.len() by {
                assert(indices@.map_values(|k: usize| k as int)[k] == indices@[k] as int);
            }
        }
        self.projection(&indices)
    }
}

} // verus!
