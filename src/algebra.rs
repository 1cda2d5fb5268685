use vstd::prelude::*;

use crate::query::{Atom, AtomV, Term, TermV, merged_name, union_terms};
use crate::table::{
    Table,
    TableV,
    cell_eq,
    cell_is,
    cells_equal,
    clone_row,
    clone_strings,
    filter_rows,
    lemma_filter_wf,
    project_indices,
    project_v,
    vars_named,
    rows_v,
    strings_v,
};

verus! {

/// A row satisfies an atom: each constant equals its cell, and the cells of a repeated variable
/// are pairwise equal.
pub open spec fn row_matches(terms: Seq<TermV>, row: Seq<Option<String>>) -> bool {
    &&& forall|i: int|
        0 <= i < terms.len() && (#[trigger] terms[i]) is Constant ==> cell_is(
            row[i],
            terms[i]->Constant_0,
        )
    &&& forall|i: int, j: int|
        0 <= i < j < terms.len() && (#[trigger] terms[i]) is Variable && #[trigger] terms[j]
            == terms[i] ==> cell_eq(row[i], row[j])
}

/// The conditions of `row_matches` for the positions before `n`.
pub open spec fn matches_before(terms: Seq<TermV>, row: Seq<Option<String>>, n: int) -> bool {
    &&& forall|i: int|
        0 <= i < n && (#[trigger] terms[i]) is Constant ==> cell_is(row[i], terms[i]->Constant_0)
    &&& forall|i: int, j: int|
        0 <= i < n && i < j < terms.len() && (#[trigger] terms[i]) is Variable && #[trigger] terms[j]
            == terms[i] ==> cell_eq(row[i], row[j])
}

/// The rows of a table that satisfy an atom.
pub open spec fn select_v(a: AtomV, t: TableV) -> TableV {
    TableV { rows: t.rows.filter(|r: Seq<Option<String>>| row_matches(a.terms, r)), ..t }
}

/// Every pairing of a row of `l` with a row of `r`: the rows of `l` in order, each followed by
/// all rows of `r` in order.
pub open spec fn product_rows(l: Seq<Seq<Option<String>>>, r: Seq<Seq<Option<String>>>) -> Seq<
    Seq<Option<String>>,
>
    decreases l.len(),
{
    if l.len() == 0 {
        Seq::empty()
    } else {
        product_rows(l.drop_last(), r) + r.map_values(|x: Seq<Option<String>>| l.last() + x)
    }
}

/// The Cartesian product of two tables.
pub open spec fn product_v(l: TableV, r: TableV) -> TableV {
    TableV {
        name: merged_name(l.name, r.name),
        schema: l.schema + r.schema,
        rows: product_rows(l.rows, r.rows),
    }
}

/// The atom over the terms of two atoms, one after the other.
pub open spec fn merge_v(a: AtomV, b: AtomV) -> AtomV {
    AtomV { name: merged_name(a.name, b.name), terms: a.terms + b.terms }
}

/// The join of two tables under their atoms: the product, the rows satisfying both atoms, and
/// the projection onto the union of their terms.
pub open spec fn join_v(a: AtomV, b: AtomV, l: TableV, r: TableV) -> TableV {
    project_v(union_terms(a.terms, b.terms), select_v(merge_v(a, b), product_v(l, r)))
}

/// Some row of `u` joins with `row`: the two rows side by side satisfy both atoms.
pub open spec fn has_partner(a: AtomV, b: AtomV, row: Seq<Option<String>>, u: TableV) -> bool {
    exists|j: int| 0 <= j < u.rows.len() && row_matches(a.terms + b.terms, row + #[trigger] u.rows[j])
}

/// The semi-join: the rows of `l` that join with some row of `r`, each once and in order,
/// projected onto the terms of `a`, under the name of `a`.
pub open spec fn semi_join_v(a: AtomV, b: AtomV, l: TableV, r: TableV) -> TableV {
    TableV {
        name: a.name,
        ..project_v(
            a.terms,
            TableV { rows: l.rows.filter(|row: Seq<Option<String>>| has_partner(a, b, row, r)), ..l },
        )
    }
}

/// Ands each entry of the mask with "the cell at `index` holds `c`".
fn and_constant(mask: &mut Vec<bool>, rows: &Vec<Vec<Option<String>>>, index: usize, c: &String)
    requires
        old(mask).len() == rows.len(),
        forall|k: int| 0 <= k < rows.len() ==> index < (#[trigger] rows@[k]).len(),
    ensures
        final(mask).len() == old(mask).len(),
        forall|k: int|
            0 <= k < rows.len() ==> #[trigger] final(mask)@[k] == (old(mask)@[k] && cell_is(
                rows@[k]@[index as int],
                c@,
            )),
{
    let mut k: usize = 0;
    while k < rows.len()
        invariant
            mask.len() == rows.len(),
            forall|k: int| 0 <= k < rows.len() ==> index < (#[trigger] rows@[k]).len(),
            k <= rows.len(),
            forall|j: int|
                0 <= j < k ==> #[trigger] mask@[j] == (old(mask)@[j] && cell_is(
                    rows@[j]@[index as int],
                    c@,
                )),
            forall|j: int| k <= j < rows.len() ==> #[trigger] mask@[j] == old(mask)@[j],
        decreases rows.len() - k,
    {
        let holds = match &rows[k][index] {
            Some(v) => String::eq(v, c),
            None => false,
        };
        let m = mask[k] && holds;
        mask.set(k, m);
        k = k + 1;
    }
}

/// Ands each entry of the mask with "the cells at `a` and `b` are equal".
fn and_equal_cells(mask: &mut Vec<bool>, rows: &Vec<Vec<Option<String>>>, a: usize, b: usize)
    requires
        old(mask).len() == rows.len(),
        forall|k: int| 0 <= k < rows.len() ==> a < (#[trigger] rows@[k]).len() && b < rows@[k].len(),
    ensures
        final(mask).len() == old(mask).len(),
        forall|k: int|
            0 <= k < rows.len() ==> #[trigger] final(mask)@[k] == (old(mask)@[k] && cell_eq(
                rows@[k]@[a as int],
                rows@[k]@[b as int],
            )),
{
    let mut k: usize = 0;
    while k < rows.len()
        invariant
            mask.len() == rows.len(),
            forall|k: int| 0 <= k < rows.len() ==> a < (#[trigger] rows@[k]).len() && b < rows@[k].len(),
            k <= rows.len(),
            forall|j: int|
                0 <= j < k ==> #[trigger] mask@[j] == (old(mask)@[j] && cell_eq(
                    rows@[j]@[a as int],
                    rows@[j]@[b as int],
                )),
            forall|j: int| k <= j < rows.len() ==> #[trigger] mask@[j] == old(mask)@[j],
        decreases rows.len() - k,
    {
        let m = mask[k] && cells_equal(&rows[k][a], &rows[k][b]);
        mask.set(k, m);
        k = k + 1;
    }
}

/// The rows of `table` satisfying `query`: each constant equals its column, and the columns of
/// a repeated variable are equal. The schema and the order of rows are kept.
pub fn select(query: &Atom, table: &Table) -> (r: Table)
    requires
        table.wf(),
        query@.terms.len() == table@.schema.len(),
    ensures
        r@ == select_v(query@, table@),
        r.wf(),
{
    let ghost terms = query@.terms;
    let n = query.terms.len();
    assert forall|k: int| 0 <= k < table.rows.len() implies (#[trigger] table.rows@[k]).len() == n by {
        assert(table@.rows[k] == table.rows@[k]@);
    }
    let mut mask: Vec<bool> = Vec::new();
    let mut k: usize = 0;
    while k < table.rows.len()
        invariant
            k <= table.rows.len(),
            mask.len() == k,
            forall|j: int| 0 <= j < k ==> #[trigger] mask@[j],
        decreases table.rows.len() - k,
    {
        mask.push(true);
        k = k + 1;
    }
    let mut index: usize = 0;
    while index < n
        invariant
            terms == query@.terms,
            n == query.terms.len(),
            index <= n,
            mask.len() == table.rows.len(),
            forall|k: int| 0 <= k < table.rows.len() ==> (#[trigger] table.rows@[k]).len() == n,
            forall|k: int|
                0 <= k < table.rows.len() ==> #[trigger] mask@[k] == matches_before(
                    terms,
                    table.rows@[k]@,
                    index as int,
                ),
        decreases n - index,
    {
        let ghost before = mask@;
        assert(terms[index as int] == query.terms@[index as int]@);
        match &query.terms[index] {
            Term::Constant(c) => {
                and_constant(&mut mask, &table.rows, index, c);
                assert forall|k: int| 0 <= k < table.rows.len() implies #[trigger] mask@[k]
                    == matches_before(terms, table.rows@[k]@, index + 1) by {
                    let row = table.rows@[k]@;
                    if mask@[k] {
                        assert forall|i: int, j: int|
                            0 <= i < index + 1 && i < j < terms.len() && (#[trigger] terms[i]) is Variable
                                && #[trigger] terms[j] == terms[i] implies cell_eq(row[i], row[j]) by {
                            assert(i != index);
                        }
                    }
                }
            },
            Term::Variable(name) => {
                let mut j: usize = index + 1;
                while j < n
                    invariant
                        terms == query@.terms,
                        n == query.terms.len(),
                        index < n,
                        index + 1 <= j <= n,
                        terms[index as int] == TermV::Variable(name@),
                        mask.len() == table.rows.len(),
                        forall|k: int| 0 <= k < table.rows.len() ==> (#[trigger] table.rows@[k]).len() == n,
                        forall|k: int|
                            0 <= k < table.rows.len() ==> #[trigger] mask@[k] == (before[k] && forall|
                                j2: int,
                            |
                                index < j2 < j && #[trigger] terms[j2] == terms[index as int]
                                    ==> cell_eq(
                                    table.rows@[k]@[index as int],
                                    table.rows@[k]@[j2],
                                )),
                    decreases n - j,
                {
                    assert(terms[j as int] == query.terms@[j as int]@);
                    let same = match &query.terms[j] {
                        Term::Variable(other) => String::eq(other, name),
                        Term::Constant(_) => false,
                    };
                    if same {
                        let ghost mid = mask@;
                        and_equal_cells(&mut mask, &table.rows, index, j);
                        assert forall|k: int| 0 <= k < table.rows.len() implies #[trigger] mask@[k] == (
                        before[k] && forall|j2: int|
                            index < j2 < j + 1 && #[trigger] terms[j2] == terms[index as int]
                                ==> cell_eq(table.rows@[k]@[index as int], table.rows@[k]@[j2])) by {
                            assert(mid[k] == (before[k] && forall|j2: int|
                                index < j2 < j && #[trigger] terms[j2] == terms[index as int]
                                    ==> cell_eq(table.rows@[k]@[index as int], table.rows@[k]@[j2])));
                        }
                    } else {
                        assert forall|k: int| 0 <= k < table.rows.len() implies #[trigger] mask@[k] == (
                        before[k] && forall|j2: int|
                            index < j2 < j + 1 && #[trigger] terms[j2] == terms[index as int]
                                ==> cell_eq(table.rows@[k]@[index as int], table.rows@[k]@[j2])) by {
                            if before[k] && (forall|j2: int|
                                index < j2 < j && #[trigger] terms[j2] == terms[index as int]
                                    ==> cell_eq(table.rows@[k]@[index as int], table.rows@[k]@[j2])) {
                                assert forall|j2: int|
                                    index < j2 < j + 1 && #[trigger] terms[j2] == terms[index as int]
                                        implies cell_eq(table.rows@[k]@[index as int], table.rows@[k]@[j2]) by {
                                    if j2 == j {
                                        assert(terms[j2] != terms[index as int]);
                                    }
                                }
                            }
                        }
                    }
                    j = j + 1;
                }
                assert forall|k: int| 0 <= k < table.rows.len() implies #[trigger] mask@[k]
                    == matches_before(terms, table.rows@[k]@, index + 1) by {
                    let row = table.rows@[k]@;
                    if mask@[k] {
                        assert forall|i: int, j2: int|
                            0 <= i < index + 1 && i < j2 < terms.len() && (#[trigger] terms[i]) is Variable
                                && #[trigger] terms[j2] == terms[i] implies cell_eq(row[i], row[j2]) by {
                            if i == index {
                                assert(index < j2 < n && terms[j2] == terms[index as int]);
                            }
                        }
                    }
                    if matches_before(terms, row, index + 1) {
                        assert forall|j2: int|
                            index < j2 < n && #[trigger] terms[j2] == terms[index as int] implies cell_eq(
                                row[index as int],
                                row[j2],
                            ) by {
                            assert(terms[index as int] is Variable);
                        }
                    }
                }
            },
        }
        index = index + 1;
    }
    let ghost p = |r: Seq<Option<String>>| row_matches(terms, r);
    assert forall|k: int| 0 <= k < table.rows.len() implies mask@[k] == p(#[trigger] table.rows@[k]@) by {
        let row = table.rows@[k]@;
        if mask@[k] {
            assert(matches_before(terms, row, n as int));
        }
    }
    let rows = filter_rows(&table.rows, &mask, Ghost(p));
    let r = Table { name: table.name.clone(), schema: clone_strings(&table.schema), rows };
    proof {
        lemma_filter_wf(table@, p);
    }
    r
}

/// The product has one row per pair, each as long as the two rows together.
pub proof fn lemma_product_rows(l: Seq<Seq<Option<String>>>, r: Seq<Seq<Option<String>>>)
    ensures
        product_rows(l, r).len() == l.len() * r.len(),
        forall|i: int, j: int|
            0 <= i < l.len() && 0 <= j < r.len() ==> #[trigger] product_rows(l, r)[i * r.len() + j]
                == l[i] + r[j],
    decreases l.len(),
{
    if l.len() > 0 {
        let t = l.drop_last();
        lemma_product_rows(t, r);
        let n = l.len();
        let m = r.len();
        assert((n - 1) * m + m == n * m) by (nonlinear_arith);
        assert forall|i: int, j: int| 0 <= i < l.len() && 0 <= j < r.len() implies #[trigger] product_rows(
            l,
            r,
        )[i * r.len() + j] == l[i] + r[j] by {
            if i < n - 1 {
                assert(i * m + j < (n - 1) * m) by (nonlinear_arith)
                    requires
                        0 <= i < n - 1,
                        0 <= j < m,
                ;
                assert(t[i] == l[i]);
            } else {
                assert(i * m == (n - 1) * m) by (nonlinear_arith)
                    requires
                        i == n - 1,
                ;
            }
        }
    }
}

/// Every row of a product of well-formed tables has one cell per attribute of both.
pub proof fn lemma_product_wf(l: TableV, r: TableV)
    requires
        l.wf(),
        r.wf(),
    ensures
        product_v(l, r).wf(),
    decreases l.rows.len(),
{
    let p = product_rows(l.rows, r.rows);
    if l.rows.len() > 0 {
        let t = TableV { rows: l.rows.drop_last(), ..l };
        lemma_product_wf(t, r);
        let q = product_rows(t.rows, r.rows);
        let m = r.rows.map_values(|x: Seq<Option<String>>| l.rows.last() + x);
        assert(t.rows == l.rows.drop_last());
        assert(p == q + m);
        assert forall|i: int| 0 <= i < p.len() implies (#[trigger] p[i]).len() == l.schema.len()
            + r.schema.len() by {
            if i < q.len() {
                assert(p[i] == q[i]);
                assert(product_v(t, r).rows[i] == q[i]);
                assert(q[i].len() == t.schema.len() + r.schema.len());
            } else {
                let x = r.rows[i - q.len()];
                assert(p[i] == m[i - q.len()]);
                assert(p[i] == l.rows.last() + x);
                assert(l.rows[l.rows.len() - 1] == l.rows.last());
                assert(x.len() == r.schema.len());
            }
        }
    }
}

/// A row of one table followed by a row of another.
fn concat_rows(a: &Vec<Option<String>>, b: &Vec<Option<String>>) -> (r: Vec<Option<String>>)
    ensures
        r@ == a@ + b@,
{
    let mut r = clone_row(a);
    let mut i: usize = 0;
    while i < b.len()
        invariant
            i <= b.len(),
            r@ == a@ + b@.take(i as int),
        decreases b.len() - i,
    {
        r.push(crate::table::clone_cell(&b[i]));
        i = i + 1;
        assert(r@ =~= a@ + b@.take(i as int));
    }
    assert(b@.take(b.len() as int) =~= b@);
    r
}

/// The name of two relations joined by an underscore.
fn merged_table_name(left: &String, right: &String) -> (r: String)
    ensures
        r@ == merged_name(left@, right@),
{
    let mut name = left.clone();
    name.append("_");
    name.append(right.as_str());
    proof {
        reveal_strlit("_");
    }
    name
}

/// The Cartesian product: schema `left.schema ++ right.schema`, and one row for each pair of a
/// row of `left` and a row of `right`, `left` rows in the outer order.
pub fn cartesian_product(left: &Table, right: &Table) -> (r: Table)
    requires
        left.wf(),
        right.wf(),
    ensures
        r@ == product_v(left@, right@),
        r.wf(),
{
    let ghost lv = left@.rows;
    let ghost rv = right@.rows;
    let name = merged_table_name(&left.name, &right.name);
    let mut schema = clone_strings(&left.schema);
    let mut k: usize = 0;
    while k < right.schema.len()
        invariant
            k <= right.schema.len(),
            schema@ == left.schema@ + right.schema@.take(k as int),
        decreases right.schema.len() - k,
    {
        schema.push(right.schema[k].clone());
        k = k + 1;
        assert(schema@ =~= left.schema@ + right.schema@.take(k as int));
    }
    assert(right.schema@.take(right.schema.len() as int) =~= right.schema@);
    assert(strings_v(schema@) =~= strings_v(left.schema@) + strings_v(right.schema@));
    let mut rows: Vec<Vec<Option<String>>> = Vec::new();
    if left.is_empty() || right.is_empty() {
        proof {
            lemma_product_rows(lv, rv);
            assert(lv.len() * rv.len() == 0) by (nonlinear_arith)
                requires
                    lv.len() == 0 || rv.len() == 0,
            ;
        }
        let r = Table { name, schema, rows };
        assert(r@.rows =~= product_rows(lv, rv));
        proof {
            lemma_product_wf(left@, right@);
        }
        return r;
    }
    let mut i: usize = 0;
    while i < left.rows.len()
        invariant
            lv == left@.rows,
            rv == right@.rows,
            i <= left.rows.len(),
            rows_v(rows@) == product_rows(lv.take(i as int), rv),
        decreases left.rows.len() - i,
    {
        let ghost f = |x: Seq<Option<String>>| lv[i as int] + x;
        let ghost done = product_rows(lv.take(i as int), rv);
        let mut j: usize = 0;
        while j < right.rows.len()
            invariant
                lv == left@.rows,
                rv == right@.rows,
                i < left.rows.len(),
                j <= right.rows.len(),
                f == (|x: Seq<Option<String>>| lv[i as int] + x),
                rows_v(rows@) == done + rv.take(j as int).map_values(f),
            decreases right.rows.len() - j,
        {
            let row = concat_rows(&left.rows[i], &right.rows[j]);
            assert(lv[i as int] == left.rows@[i as int]@);
            assert(rv[j as int] == right.rows@[j as int]@);
            let ghost prev = rows@;
            rows.push(row);
            assert(rows_v(rows@) =~= rows_v(prev).push(row@));
            assert(f(rv[j as int]) == row@);
            assert(rv.take(j + 1).map_values(f) =~= rv.take(j as int).map_values(f).push(f(rv[j as int])));
            j = j + 1;
            assert(rows_v(rows@) =~= done + rv.take(j as int).map_values(f));
        }
        let ghost next = lv.take(i + 1);
        assert(next.drop_last() =~= lv.take(i as int));
        assert(rv.take(j as int) =~= rv);
        assert(rv.map_values(f) =~= rv.map_values(|x: Seq<Option<String>>| next.last() + x));
        assert(product_rows(next, rv) == product_rows(next.drop_last(), rv) + rv.map_values(|x: Seq<Option<String>>| next.last() + x));
        i = i + 1;
    }
    assert(lv.take(left.rows.len() as int) =~= lv);
    proof {
        lemma_product_wf(left@, right@);
    }
    Table { name, schema, rows }
}

/// The natural join of two tables under their atoms: the rows of the product that satisfy both
/// atoms, projected onto the union of their terms.
pub fn join(left: &Atom, right: &Atom, left_table: &Table, right_table: &Table) -> (r: Table)
    requires
        left_table.wf(),
        right_table.wf(),
        left@.terms.len() == left_table@.schema.len(),
        right@.terms.len() == right_table@.schema.len(),
        vars_named(left@.terms, left_table@.schema),
        vars_named(right@.terms, right_table@.schema),
    ensures
        r@ == join_v(left@, right@, left_table@, right_table@),
        r.wf(),
{
    let cartesian_product = cartesian_product(left_table, right_table);
    let merged = Atom::merge(left, right);
    assert(merged@ == merge_v(left@, right@));
    let join_table = select(&merged, &cartesian_product);
    let union = Atom::union(left, right);
    proof {
        let u = union_terms(left@.terms, right@.terms);
        let sch = left_table@.schema + right_table@.schema;
        assert forall|i: int| 0 <= i < u.len() && (#[trigger] u[i]) is Variable implies sch.contains(u[i]->Variable_0) by {
            assert(u.contains(u[i]));
            lemma_union_contains(left@.terms, right@.terms, u[i]);
            if left@.terms.contains(u[i]) {
                let k = choose|k: int| 0 <= k < left@.terms.len() && left@.terms[k] == u[i];
                let j = choose|j: int| 0 <= j < left_table@.schema.len() && left_table@.schema[j] == u[i]->Variable_0;
                assert(sch[j] == u[i]->Variable_0);
            } else {
                let k = choose|k: int| 0 <= k < right@.terms.len() && right@.terms[k] == u[i];
                let j = choose|j: int| 0 <= j < right_table@.schema.len() && right_table@.schema[j] == u[i]->Variable_0;
                assert(sch[left_table@.schema.len() + j] == u[i]->Variable_0);
            }
        }
    }
    join_table.project(union.as_slice())
}

/// A filter keeps a sequence whose elements all satisfy the predicate as it is.
pub proof fn lemma_filter_all<A>(s: Seq<A>, p: spec_fn(A) -> bool)
    requires
        forall|i: int| 0 <= i < s.len() ==> p(#[trigger] s[i]),
    ensures
        s.filter(p) == s,
    decreases s.len(),
{
    reveal(Seq::filter);
    if s.len() > 0 {
        lemma_filter_all(s.drop_last(), p);
        assert(s.drop_last().push(s.last()) =~= s);
    }
}

/// Selecting twice under the same atom gives what selecting once gives.
pub proof fn lemma_select_idempotent(a: AtomV, t: TableV)
    ensures
        select_v(a, select_v(a, t)) == select_v(a, t),
{
    let p = |r: Seq<Option<String>>| row_matches(a.terms, r);
    crate::table::lemma_filter_elements(t.rows, p);
    lemma_filter_all(t.rows.filter(p), p);
}

/// A product with a table without rows has no rows, on either side, and keeps the attributes
/// of both in order; otherwise it has one row per pair of rows.
pub proof fn lemma_product_size(t: TableV, u: TableV)
    ensures
        product_v(t, u).rows.len() == t.rows.len() * u.rows.len(),
        product_v(t, u).schema == t.schema + u.schema,
        u.rows.len() == 0 ==> product_v(t, u) == (TableV {
            name: merged_name(t.name, u.name),
            schema: t.schema + u.schema,
            rows: Seq::empty(),
        }),
        u.rows.len() == 0 ==> product_v(u, t) == (TableV {
            name: merged_name(u.name, t.name),
            schema: u.schema + t.schema,
            rows: Seq::empty(),
        }),
{
    lemma_product_rows(t.rows, u.rows);
    lemma_product_rows(u.rows, t.rows);
    if u.rows.len() == 0 {
        assert(t.rows.len() * u.rows.len() == 0) by (nonlinear_arith)
            requires
                u.rows.len() == 0,
        ;
        assert(product_v(t, u).rows =~= Seq::empty());
        assert(product_v(u, t).rows =~= Seq::empty());
    }
}

/// A filter keeps something exactly when some element satisfies the predicate.
pub proof fn lemma_filter_nonempty<A>(s: Seq<A>, p: spec_fn(A) -> bool)
    ensures
        s.filter(p).len() > 0 <==> exists|i: int| 0 <= i < s.len() && p(#[trigger] s[i]),
{
    crate::table::lemma_filter_elements(s, p);
    if s.filter(p).len() > 0 {
        assert(s.contains(s.filter(p)[0]));
    }
    if exists|i: int| 0 <= i < s.len() && p(#[trigger] s[i]) {
        let i = choose|i: int| 0 <= i < s.len() && p(#[trigger] s[i]);
        #[allow(deprecated)]
        s.filter_lemma(p);
        assert(s.filter(p).contains(s[i]));
    }
}

/// Whether some row of `table_2` joins with row `i` of `table`: the product of that one row
/// with `table_2`, selected under both atoms, is not empty.
fn joins_with_some_row(merged: &Atom, table: &Table, i: usize, table_2: &Table) -> (r: bool)
    requires
        table.wf(),
        table_2.wf(),
        i < table.rows.len(),
        merged@.terms.len() == table@.schema.len() + table_2@.schema.len(),
    ensures
        r == exists|j: int|
            0 <= j < table_2@.rows.len() && row_matches(merged@.terms, table@.rows[i as int] + #[trigger] table_2@.rows[j]),
{
    let row = clone_row(&table.rows[i]);
    assert(row@ == table@.rows[i as int]);
    let single = Table { name: table.name.clone(), schema: clone_strings(&table.schema), rows: vec![row] };
    assert(single@.rows =~= seq![table@.rows[i as int]]);
    let product = cartesian_product(&single, table_2);
    let selected = select(merged, &product);
    let ghost p = |r: Seq<Option<String>>| row_matches(merged@.terms, r);
    let ghost f = |x: Seq<Option<String>>| table@.rows[i as int] + x;
    proof {
        let one = single@.rows;
        assert(one.drop_last() =~= Seq::<Seq<Option<String>>>::empty());
        assert(product_rows(one.drop_last(), table_2@.rows) =~= Seq::<Seq<Option<String>>>::empty());
        assert(product@.rows =~= table_2@.rows.map_values(f));
        lemma_filter_nonempty(product@.rows, p);
        if exists|j: int| 0 <= j < table_2@.rows.len() && row_matches(merged@.terms, table@.rows[i as int] + #[trigger] table_2@.rows[j]) {
            let j = choose|j: int| 0 <= j < table_2@.rows.len() && row_matches(merged@.terms, table@.rows[i as int] + #[trigger] table_2@.rows[j]);
            assert(product@.rows[j] == f(table_2@.rows[j]));
            assert(p(product@.rows[j]));
        }
        if exists|k: int| 0 <= k < product@.rows.len() && p(#[trigger] product@.rows[k]) {
            let k = choose|k: int| 0 <= k < product@.rows.len() && p(#[trigger] product@.rows[k]);
            assert(product@.rows[k] == f(table_2@.rows[k]));
            assert(row_matches(merged@.terms, table@.rows[i as int] + table_2@.rows[k]));
        }
    }
    selected.rows.len() > 0
}

/// The rows of `table` that join with some row of `table_2`, each kept once and in order,
/// projected onto the terms of `query` and named after it.
pub fn semi_join(query: &Atom, query_2: &Atom, table: &Table, table_2: &Table) -> (r: Table)
    requires
        table.wf(),
        table_2.wf(),
        query@.terms.len() == table@.schema.len(),
        query_2@.terms.len() == table_2@.schema.len(),
        vars_named(query@.terms, table@.schema),
    ensures
        r@ == semi_join_v(query@, query_2@, table@, table_2@),
        r.wf(),
{
    let merged = Atom::merge(query, query_2);
    let ghost p = |row: Seq<Option<String>>| has_partner(query@, query_2@, row, table_2@);
    let mut mask: Vec<bool> = Vec::new();
    let mut i: usize = 0;
    while i < table.rows.len()
        invariant
            table.wf(),
            table_2.wf(),
            merged@.terms == query@.terms + query_2@.terms,
            p == (|row: Seq<Option<String>>| has_partner(query@, query_2@, row, table_2@)),
            query@.terms.len() == table@.schema.len(),
            query_2@.terms.len() == table_2@.schema.len(),
            i <= table.rows.len(),
            mask.len() == i,
            forall|k: int| 0 <= k < i ==> mask@[k] == p(#[trigger] table.rows@[k]@),
        decreases table.rows.len() - i,
    {
        let found = joins_with_some_row(&merged, table, i, table_2);
        assert(table@.rows[i as int] == table.rows@[i as int]@);
        proof {
            let row = table.rows@[i as int]@;
            if found {
                let j = choose|j: int|
                    0 <= j < table_2@.rows.len() && row_matches(merged@.terms, table@.rows[i as int] + #[trigger] table_2@.rows[j]);
                assert(has_partner(query@, query_2@, row, table_2@));
            }
            if has_partner(query@, query_2@, row, table_2@) {
                let j = choose|j: int|
                    0 <= j < table_2@.rows.len() && row_matches(query@.terms + query_2@.terms, row + #[trigger] table_2@.rows[j]);
                assert(row_matches(merged@.terms, table@.rows[i as int] + table_2@.rows[j]));
            }
            assert(found == p(row));
        }
        mask.push(found);
        i = i + 1;
    }
    let rows = filter_rows(&table.rows, &mask, Ghost(p));
    let filtered = Table { name: table.name.clone(), schema: clone_strings(&table.schema), rows };
    proof {
        lemma_filter_wf(table@, p);
    }
    let mut result = filtered.project(query.terms.as_slice());
    result.set_name(query.relation_name.as_str());
    result
}

/// A semi-join has the attributes that projecting its left table onto its left atom gives,
/// and never more rows than its left table.
pub proof fn lemma_semi_join_shape(a: AtomV, b: AtomV, t: TableV, u: TableV)
    ensures
        semi_join_v(a, b, t, u).schema == project_v(a.terms, t).schema,
        semi_join_v(a, b, t, u).rows.len() <= t.rows.len(),
{
    let p = |row: Seq<Option<String>>| has_partner(a, b, row, u);
    crate::table::lemma_filter_elements(t.rows, p);
}

/// Every term is a variable.
pub open spec fn all_vars(ts: Seq<TermV>) -> bool {
    forall|i: int| 0 <= i < ts.len() ==> (#[trigger] ts[i]) is Variable
}

/// The names of a list of variables.
pub open spec fn var_names(ts: Seq<TermV>) -> Seq<Seq<char>> {
    ts.map_values(|t: TermV| t->Variable_0)
}

/// What a cell holds, as characters.
pub open spec fn cell_view(c: Option<String>) -> Option<Seq<char>> {
    match c {
        Some(s) => Some(s@),
        None => None,
    }
}

/// What a row holds, as characters.
pub open spec fn row_view(r: Seq<Option<String>>) -> Seq<Option<Seq<char>>> {
    r.map_values(|c: Option<String>| cell_view(c))
}

/// The cells of `row` named by the variables of `w`, each found at its first position in
/// `schema`.
pub open spec fn cells_by_name(schema: Seq<Seq<char>>, w: Seq<TermV>, row: Seq<Option<String>>) -> Seq<
    Option<String>,
> {
    Seq::new(w.len(), |q: int| row[crate::table::index_of(schema, w[q]->Variable_0)])
}

/// Projecting onto variables that all name attributes takes, for each, its first attribute.
pub proof fn lemma_project_indices_vars(attr: Seq<TermV>, schema: Seq<Seq<char>>)
    requires
        all_vars(attr),
        forall|i: int| 0 <= i < attr.len() ==> schema.contains((#[trigger] attr[i])->Variable_0),
    ensures
        project_indices(attr, schema) == Seq::new(
            attr.len(),
            |i: int| crate::table::index_of(schema, attr[i]->Variable_0),
        ),
    decreases attr.len(),
{
    if attr.len() > 0 {
        let t = attr.drop_last();
        assert forall|i: int| 0 <= i < t.len() implies schema.contains((#[trigger] t[i])->Variable_0) by {
            assert(t[i] == attr[i]);
        }
        lemma_project_indices_vars(t, schema);
        assert(attr[attr.len() - 1] == attr.last());
        crate::table::lemma_index_of(schema, attr.last()->Variable_0);
        assert(project_indices(attr, schema) =~= Seq::new(
            attr.len(),
            |i: int| crate::table::index_of(schema, attr[i]->Variable_0),
        ));
    }
}

/// A term is in the union of two lists exactly when it is in one of them.
pub proof fn lemma_union_contains(a: Seq<TermV>, b: Seq<TermV>, t: TermV)
    ensures
        union_terms(a, b).contains(t) <==> a.contains(t) || b.contains(t),
    decreases b.len(),
{
    if b.len() > 0 {
        lemma_union_contains(a, b.drop_last(), t);
        let u = union_terms(a, b.drop_last());
        if b.drop_last().contains(t) {
            let k = choose|k: int| 0 <= k < b.len() - 1 && b.drop_last()[k] == t;
            assert(b[k] == t);
        }
        if b.contains(t) && !b.drop_last().contains(t) {
            let k = choose|k: int| 0 <= k < b.len() && b[k] == t;
            if k < b.len() - 1 {
                assert(b.drop_last()[k] == t);
            }
            assert(t == b.last());
        }
        if !u.contains(b.last()) {
            assert(u.push(b.last())[u.len() as int] == b.last());
            if u.push(b.last()).contains(t) && !u.contains(t) {
                let k = choose|k: int| 0 <= k < u.len() + 1 && u.push(b.last())[k] == t;
                if k < u.len() {
                    assert(u[k] == t);
                }
            }
            if u.contains(t) {
                let k = choose|k: int| 0 <= k < u.len() && u[k] == t;
                assert(u.push(b.last())[k] == t);
            }
        }
        if t == b.last() {
            assert(b[b.len() - 1] == t);
        }
    }
}

/// The first position of a name in two schemas one after the other.
pub proof fn lemma_index_of_concat(x: Seq<Seq<char>>, y: Seq<Seq<char>>, v: Seq<char>)
    ensures
        crate::table::index_of(x + y, v) == (if x.contains(v) {
            crate::table::index_of(x, v)
        } else if y.contains(v) {
            x.len() + crate::table::index_of(y, v)
        } else {
            -1
        }),
    decreases y.len(),
{
    crate::table::lemma_index_of(x, v);
    crate::table::lemma_index_of(y, v);
    crate::table::lemma_index_of(x + y, v);
    let k = crate::table::index_of(x + y, v);
    if x.contains(v) {
        let i = crate::table::index_of(x, v);
        assert((x + y)[i] == v);
        if k < i && k >= 0 {
            assert(x[k] == v);
        }
    } else if y.contains(v) {
        let j = crate::table::index_of(y, v);
        assert((x + y)[x.len() + j] == v);
        if k >= 0 && k < x.len() {
            assert(x[k] == v);
        }
        if k >= x.len() && k < x.len() + j {
            assert(y[k - x.len()] == v);
        }
    } else {
        if k >= 0 {
            if k < x.len() {
                assert(x[k] == v);
            } else {
                assert(y[k - x.len()] == v);
            }
        }
    }
}

/// The atoms are over variables only, their tables renamed by them, and `w` names variables
/// of the two atoms.
pub open spec fn renamed_pair(a: AtomV, b: AtomV, l: TableV, r: TableV, w: Seq<TermV>) -> bool {
    &&& all_vars(a.terms)
    &&& all_vars(b.terms)
    &&& all_vars(w)
    &&& forall|i: int| 0 <= i < w.len() ==> a.terms.contains(#[trigger] w[i]) || b.terms.contains(w[i])
    &&& l.schema == var_names(a.terms)
    &&& r.schema == var_names(b.terms)
    &&& l.wf()
    &&& r.wf()
}

/// After a join of renamed tables, projecting onto variables takes each cell by the first
/// attribute of its name in the product.
pub proof fn lemma_join_then_project(a: AtomV, b: AtomV, l: TableV, r: TableV, w: Seq<TermV>)
    requires
        renamed_pair(a, b, l, r, w),
    ensures
        project_v(w, join_v(a, b, l, r)).rows.len() == select_v(merge_v(a, b), product_v(l, r)).rows.len(),
        forall|k: int|
            0 <= k < project_v(w, join_v(a, b, l, r)).rows.len() ==> #[trigger] project_v(
                w,
                join_v(a, b, l, r),
            ).rows[k] == cells_by_name(
                l.schema + r.schema,
                w,
                select_v(merge_v(a, b), product_v(l, r)).rows[k],
            ),
{
    let u = union_terms(a.terms, b.terms);
    let pp = l.schema + r.schema;
    let sel = select_v(merge_v(a, b), product_v(l, r));
    let j = project_v(u, sel);
    assert forall|i: int| 0 <= i < u.len() implies (#[trigger] u[i]) is Variable && pp.contains(
        u[i]->Variable_0,
    ) by {
        assert(u.contains(u[i]));
        lemma_union_contains(a.terms, b.terms, u[i]);
        if a.terms.contains(u[i]) {
            let k = choose|k: int| 0 <= k < a.terms.len() && a.terms[k] == u[i];
            assert(pp[k] == var_names(a.terms)[k]);
        } else {
            let k = choose|k: int| 0 <= k < b.terms.len() && b.terms[k] == u[i];
            assert(pp[l.schema.len() + k] == var_names(b.terms)[k]);
        }
    }
    lemma_project_indices_vars(u, pp);
    let idx1 = project_indices(u, pp);
    assert forall|i: int| 0 <= i < u.len() implies pp[#[trigger] idx1[i]] == u[i]->Variable_0 by {
        crate::table::lemma_index_of(pp, u[i]->Variable_0);
    }
    assert(j.schema =~= var_names(u));
    assert forall|q: int| 0 <= q < w.len() implies var_names(u).contains((#[trigger] w[q])->Variable_0) by {
        lemma_union_contains(a.terms, b.terms, w[q]);
        let k = choose|k: int| 0 <= k < u.len() && u[k] == w[q];
        assert(var_names(u)[k] == w[q]->Variable_0);
    }
    lemma_project_indices_vars(w, var_names(u));
    let idx2 = project_indices(w, var_names(u));
    assert forall|k: int| 0 <= k < project_v(w, j).rows.len() implies #[trigger] project_v(w, j).rows[k]
        == cells_by_name(pp, w, sel.rows[k]) by {
        assert forall|q: int| 0 <= q < w.len() implies project_v(w, j).rows[k][q] == cells_by_name(
            pp,
            w,
            sel.rows[k],
        )[q] by {
            let c = idx2[q];
            crate::table::lemma_index_of(var_names(u), w[q]->Variable_0);
            assert(var_names(u)[c] == w[q]->Variable_0);
            assert(u[c]->Variable_0 == w[q]->Variable_0);
        }
        assert(project_v(w, j).rows[k] =~= cells_by_name(pp, w, sel.rows[k]));
    }
}

/// Swapping the two atoms and the two halves of a row keeps it matching.
pub proof fn lemma_row_matches_swap(
    a: Seq<TermV>,
    b: Seq<TermV>,
    x: Seq<Option<String>>,
    y: Seq<Option<String>>,
)
    requires
        all_vars(a),
        all_vars(b),
        x.len() == a.len(),
        y.len() == b.len(),
        row_matches(a + b, x + y),
    ensures
        row_matches(b + a, y + x),
{
    let t = b + a;
    let row = y + x;
    assert forall|i: int, j: int|
        0 <= i < j < t.len() && (#[trigger] t[i]) is Variable && #[trigger] t[j] == t[i] implies cell_eq(
        row[i],
        row[j],
    ) by {
        let fi = if i < b.len() { a.len() + i } else { i - b.len() };
        let fj = if j < b.len() { a.len() + j } else { j - b.len() };
        assert((a + b)[fi] == t[i]);
        assert((a + b)[fj] == t[j]);
        assert((x + y)[fi] == row[i]);
        assert((x + y)[fj] == row[j]);
        if fi < fj {
            assert(cell_eq((x + y)[fi], (x + y)[fj]));
        } else {
            assert(cell_eq((x + y)[fj], (x + y)[fi]));
        }
    }
    assert forall|i: int| 0 <= i < t.len() && (#[trigger] t[i]) is Constant implies cell_is(
        row[i],
        t[i]->Constant_0,
    ) by {
        if i < b.len() {
            assert(t[i] == b[i]);
        } else {
            assert(t[i] == a[i - b.len()]);
        }
    }
}

/// A cell named `v` holds the same value whichever table comes first, when the row matches.
pub proof fn lemma_cell_by_name_swap(
    a: Seq<TermV>,
    b: Seq<TermV>,
    x: Seq<Option<String>>,
    y: Seq<Option<String>>,
    v: Seq<char>,
)
    requires
        all_vars(a),
        all_vars(b),
        x.len() == a.len(),
        y.len() == b.len(),
        row_matches(a + b, x + y),
        var_names(a).contains(v) || var_names(b).contains(v),
    ensures
        cell_view((x + y)[crate::table::index_of(var_names(a) + var_names(b), v)]) == cell_view(
            (y + x)[crate::table::index_of(var_names(b) + var_names(a), v)],
        ),
{
    let an = var_names(a);
    let bn = var_names(b);
    lemma_index_of_concat(an, bn, v);
    lemma_index_of_concat(bn, an, v);
    crate::table::lemma_index_of(an, v);
    crate::table::lemma_index_of(bn, v);
    if an.contains(v) && bn.contains(v) {
        let ia = crate::table::index_of(an, v);
        let ib = crate::table::index_of(bn, v);
        assert(a[ia] is Variable);
        assert(b[ib] is Variable);
        assert((a + b)[ia] == a[ia]);
        assert((a + b)[a.len() + ib] == b[ib]);
        assert(a[ia] == TermV::Variable(v));
        assert(b[ib] == TermV::Variable(v));
        assert(cell_eq((x + y)[ia], (x + y)[a.len() + ib]));
        assert((y + x)[ib] == y[ib]);
    } else if an.contains(v) {
        let ia = crate::table::index_of(an, v);
        assert((y + x)[b.len() + ia] == x[ia]);
    } else {
        let ib = crate::table::index_of(bn, v);
        assert((x + y)[a.len() + ib] == y[ib]);
    }
}

/// Over a table renamed by a variable-only atom, a semi-join keeps the table's attributes, in
/// order, and never adds rows.
pub proof fn lemma_semi_join_keeps_schema(a: AtomV, b: AtomV, t: TableV, u: TableV)
    requires
        all_vars(a.terms),
        t.schema == var_names(a.terms),
    ensures
        semi_join_v(a, b, t, u).schema == t.schema,
        semi_join_v(a, b, t, u).rows.len() <= t.rows.len(),
{
    lemma_semi_join_shape(a, b, t, u);
    assert forall|i: int| 0 <= i < a.terms.len() implies t.schema.contains((#[trigger] a.terms[i])->Variable_0) by {
        assert(t.schema[i] == a.terms[i]->Variable_0);
    }
    lemma_project_indices_vars(a.terms, t.schema);
    let idx = project_indices(a.terms, t.schema);
    assert forall|i: int| 0 <= i < a.terms.len() implies t.schema[#[trigger] idx[i]] == t.schema[i] by {
        crate::table::lemma_index_of(t.schema, a.terms[i]->Variable_0);
    }
    assert(project_v(a.terms, t).schema =~= t.schema);
}

} // verus!
