use vstd::prelude::*;

use crate::algebra::{
    all_vars,
    cells_by_name,
    join_v,
    lemma_cell_by_name_swap,
    lemma_join_then_project,
    lemma_row_matches_swap,
    lemma_union_contains,
    merge_v,
    product_rows,
    renamed_pair,
    row_matches,
    row_view,
    var_names,
};
use crate::query::{AtomV, TermV, union_terms};
use crate::table::{TableV, project_v};

verus! {

/// `g(0) + ... + g(n - 1)`.
pub open spec fn sum1(g: spec_fn(int) -> int, n: int) -> int
    decreases n,
{
    if n <= 0 {
        0
    } else {
        sum1(g, n - 1) + g(n - 1)
    }
}

pub proof fn lemma_sum1_ext(g1: spec_fn(int) -> int, g2: spec_fn(int) -> int, n: int)
    requires
        forall|i: int| 0 <= i < n ==> #[trigger] g1(i) == g2(i),
    ensures
        sum1(g1, n) == sum1(g2, n),
    decreases n,
{
    if n > 0 {
        lemma_sum1_ext(g1, g2, n - 1);
    }
}

pub proof fn lemma_sum1_add(g1: spec_fn(int) -> int, g2: spec_fn(int) -> int, n: int)
    ensures
        sum1(|i: int| g1(i) + g2(i), n) == sum1(g1, n) + sum1(g2, n),
    decreases n,
{
    if n > 0 {
        lemma_sum1_add(g1, g2, n - 1);
    }
}

/// A sum of zeros is zero.
pub proof fn lemma_sum1_zero(g: spec_fn(int) -> int, n: int)
    requires
        forall|i: int| 0 <= i < n ==> #[trigger] g(i) == 0,
    ensures
        sum1(g, n) == 0,
    decreases n,
{
    if n > 0 {
        lemma_sum1_zero(g, n - 1);
    }
}

/// `f(i, 0) + ... + f(i, m - 1)`.
pub open spec fn row_sum(f: spec_fn(int, int) -> int, i: int, m: int) -> int {
    sum1(|j: int| f(i, j), m)
}

/// `f(0, j) + ... + f(n - 1, j)`.
pub open spec fn col_sum(f: spec_fn(int, int) -> int, j: int, n: int) -> int {
    sum1(|i: int| f(i, j), n)
}

/// A finite double sum can be taken in either order.
pub proof fn lemma_sum_exchange(f: spec_fn(int, int) -> int, n: int, m: int)
    requires
        0 <= n,
    ensures
        sum1(|i: int| row_sum(f, i, m), n) == sum1(|j: int| col_sum(f, j, n), m),
    decreases n,
{
    if n == 0 {
        assert forall|j: int| 0 <= j < m implies #[trigger] col_sum(f, j, n) == 0 by {
        }
        lemma_sum1_zero(|j: int| col_sum(f, j, n), m);
    }
    if n > 0 {
        lemma_sum_exchange(f, n - 1, m);
        let big = |i: int| row_sum(f, i, m);
        let g1 = |j: int| col_sum(f, j, n - 1);
        let g2 = |j: int| f(n - 1, j);
        assert(sum1(big, n) == sum1(big, n - 1) + row_sum(f, n - 1, m));
        assert(sum1(big, n - 1) == sum1(g1, m));
        assert(row_sum(f, n - 1, m) == sum1(g2, m));
        lemma_sum1_add(g1, g2, m);
        assert forall|j: int| 0 <= j < m implies #[trigger] col_sum(f, j, n) == g1(j) + g2(j) by {
            assert(sum1(|i: int| f(i, j), n) == sum1(|i: int| f(i, j), n - 1) + f(n - 1, j));
        }
        lemma_sum1_ext(|j: int| col_sum(f, j, n), |j: int| g1(j) + g2(j), m);
    }
}

/// The number of elements of `s` that satisfy `p` and that `h` sends to `x`.
pub open spec fn matching<A, V>(s: Seq<A>, p: spec_fn(A) -> bool, h: spec_fn(A) -> V, x: V) -> int
    decreases s.len(),
{
    if s.len() == 0 {
        0
    } else {
        matching(s.drop_last(), p, h, x) + if p(s.last()) && h(s.last()) == x {
            1int
        } else {
            0
        }
    }
}

pub proof fn lemma_matching_concat<A, V>(
    a: Seq<A>,
    b: Seq<A>,
    p: spec_fn(A) -> bool,
    h: spec_fn(A) -> V,
    x: V,
)
    ensures
        matching(a + b, p, h, x) == matching(a, p, h, x) + matching(b, p, h, x),
    decreases b.len(),
{
    if b.len() == 0 {
        assert(a + b =~= a);
    } else {
        lemma_matching_concat(a, b.drop_last(), p, h, x);
        assert((a + b).drop_last() =~= a + b.drop_last());
        assert((a + b).last() == b.last());
    }
}

/// The count of `x` in the multiset of the images of the kept elements.
pub proof fn lemma_matching_count<A, V>(s: Seq<A>, p: spec_fn(A) -> bool, h: spec_fn(A) -> V, x: V)
    ensures
        s.filter(p).map_values(h).to_multiset().count(x) == matching(s, p, h, x),
    decreases s.len(),
{
    broadcast use vstd::seq_lib::group_to_multiset_ensures;

    reveal(Seq::filter);
    if s.len() == 0 {
        assert(s.filter(p).map_values(h) =~= Seq::<V>::empty());
    } else {
        lemma_matching_count(s.drop_last(), p, h, x);
        let f = s.drop_last().filter(p);
        if p(s.last()) {
            assert(s.filter(p) == f.push(s.last()));
            assert(s.filter(p).map_values(h) =~= f.map_values(h).push(h(s.last())));
        } else {
            assert(s.filter(p) == f);
        }
    }
}

/// The pairings of one row with each row of `r`, counted pair by pair.
pub proof fn lemma_matching_row(
    l: Seq<Option<String>>,
    r: Seq<Seq<Option<String>>>,
    p: spec_fn(Seq<Option<String>>) -> bool,
    h: spec_fn(Seq<Option<String>>) -> Seq<Option<Seq<char>>>,
    x: Seq<Option<Seq<char>>>,
    k: int,
)
    requires
        0 <= k <= r.len(),
    ensures
        matching(r.take(k).map_values(|y: Seq<Option<String>>| l + y), p, h, x) == sum1(
            |j: int|
                if p(l + r[j]) && h(l + r[j]) == x {
                    1int
                } else {
                    0
                },
            k,
        ),
    decreases k,
{
    if k > 0 {
        lemma_matching_row(l, r, p, h, x, k - 1);
        let s = r.take(k).map_values(|y: Seq<Option<String>>| l + y);
        assert(s.drop_last() =~= r.take(k - 1).map_values(|y: Seq<Option<String>>| l + y));
        assert(s.last() == l + r[k - 1]);
    }
}

/// The rows of a product, counted pair by pair, the left rows outside.
pub proof fn lemma_matching_product(
    l: Seq<Seq<Option<String>>>,
    r: Seq<Seq<Option<String>>>,
    p: spec_fn(Seq<Option<String>>) -> bool,
    h: spec_fn(Seq<Option<String>>) -> Seq<Option<Seq<char>>>,
    x: Seq<Option<Seq<char>>>,
    k: int,
)
    requires
        0 <= k <= l.len(),
    ensures
        matching(product_rows(l.take(k), r), p, h, x) == sum1(
            |i: int|
                sum1(
                    |j: int|
                        if p(l[i] + r[j]) && h(l[i] + r[j]) == x {
                            1int
                        } else {
                            0
                        },
                    r.len() as int,
                ),
            k,
        ),
    decreases k,
{
    if k > 0 {
        lemma_matching_product(l, r, p, h, x, k - 1);
        let t = l.take(k);
        assert(t.drop_last() =~= l.take(k - 1));
        assert(t.last() == l[k - 1]);
        let row = r.map_values(|y: Seq<Option<String>>| t.last() + y);
        assert(product_rows(t, r) == product_rows(l.take(k - 1), r) + row);
        lemma_matching_concat(product_rows(l.take(k - 1), r), row, p, h, x);
        lemma_matching_row(l[k - 1], r, p, h, x, r.len() as int);
        assert(r.take(r.len() as int) =~= r);
        assert(row =~= r.map_values(|y: Seq<Option<String>>| l[k - 1] + y));
    }
}

/// The values of the rows of a table.
pub open spec fn view_rows(t: TableV) -> Seq<Seq<Option<Seq<char>>>> {
    t.rows.map_values(|r: Seq<Option<String>>| row_view(r))
}

/// A join of renamed tables, projected onto variables, holds each tuple as many times as the
/// join taken the other way round, projected the same way.
pub proof fn lemma_join_counts_swap(a: AtomV, b: AtomV, l: TableV, r: TableV, w: Seq<TermV>, x: Seq<Option<Seq<char>>>)
    requires
        renamed_pair(a, b, l, r, w),
    ensures
        view_rows(project_v(w, join_v(a, b, l, r))).to_multiset().count(x) == view_rows(
            project_v(w, join_v(b, a, r, l)),
        ).to_multiset().count(x),
{
    assert(renamed_pair(b, a, r, l, w));
    lemma_join_then_project(a, b, l, r, w);
    lemma_join_then_project(b, a, r, l, w);
    let x1 = project_v(w, join_v(a, b, l, r));
    let x2 = project_v(w, join_v(b, a, r, l));
    let keep_ab = |row: Seq<Option<String>>| row_matches(merge_v(a, b).terms, row);
    let keep_ba = |row: Seq<Option<String>>| row_matches(merge_v(b, a).terms, row);
    let h1 = |row: Seq<Option<String>>| row_view(cells_by_name(l.schema + r.schema, w, row));
    let h2 = |row: Seq<Option<String>>| row_view(cells_by_name(r.schema + l.schema, w, row));
    let s1 = product_rows(l.rows, r.rows);
    let s2 = product_rows(r.rows, l.rows);
    assert(view_rows(x1) =~= s1.filter(keep_ab).map_values(h1));
    assert(view_rows(x2) =~= s2.filter(keep_ba).map_values(h2));
    lemma_matching_count(s1, keep_ab, h1, x);
    lemma_matching_count(s2, keep_ba, h2, x);
    let n = l.rows.len() as int;
    let m = r.rows.len() as int;
    lemma_matching_product(l.rows, r.rows, keep_ab, h1, x, n);
    lemma_matching_product(r.rows, l.rows, keep_ba, h2, x, m);
    assert(l.rows.take(n) =~= l.rows);
    assert(r.rows.take(m) =~= r.rows);
    let f = |i: int, j: int|
        if keep_ab(l.rows[i] + r.rows[j]) && h1(l.rows[i] + r.rows[j]) == x {
            1int
        } else {
            0
        };
    let f2 = |j: int, i: int|
        if keep_ba(r.rows[j] + l.rows[i]) && h2(r.rows[j] + l.rows[i]) == x {
            1int
        } else {
            0
        };
    assert forall|i: int, j: int| 0 <= i < n && 0 <= j < m implies #[trigger] f(i, j) == f2(j, i) by {
        let xr = l.rows[i];
        let yr = r.rows[j];
        assert(xr.len() == a.terms.len());
        assert(yr.len() == b.terms.len());
        if keep_ab(xr + yr) {
            lemma_row_matches_swap(a.terms, b.terms, xr, yr);
        }
        if keep_ba(yr + xr) {
            lemma_row_matches_swap(b.terms, a.terms, yr, xr);
        }
        if keep_ab(xr + yr) {
            assert forall|q: int| 0 <= q < w.len() implies #[trigger] h1(xr + yr)[q] == h2(yr + xr)[q] by {
                let v = w[q]->Variable_0;
                if a.terms.contains(w[q]) {
                    let c = choose|c: int| 0 <= c < a.terms.len() && a.terms[c] == w[q];
                    assert(var_names(a.terms)[c] == v);
                } else {
                    let c = choose|c: int| 0 <= c < b.terms.len() && b.terms[c] == w[q];
                    assert(var_names(b.terms)[c] == v);
                }
                lemma_cell_by_name_swap(a.terms, b.terms, xr, yr, v);
            }
            assert(h1(xr + yr) =~= h2(yr + xr));
        }
    }
    lemma_sum_exchange(f, n, m);
    assert forall|i: int| 0 <= i < n implies #[trigger] row_sum(f, i, m) == sum1(
        |j: int|
            if keep_ab(l.rows[i] + r.rows[j]) && h1(l.rows[i] + r.rows[j]) == x {
                1int
            } else {
                0
            },
        m,
    ) by {
        lemma_sum1_ext(
            |j: int| f(i, j),
            |j: int|
                if keep_ab(l.rows[i] + r.rows[j]) && h1(l.rows[i] + r.rows[j]) == x {
                    1int
                } else {
                    0
                },
            m,
        );
    }
    lemma_sum1_ext(
        |i: int| row_sum(f, i, m),
        |i: int|
            sum1(
                |j: int|
                    if keep_ab(l.rows[i] + r.rows[j]) && h1(l.rows[i] + r.rows[j]) == x {
                        1int
                    } else {
                        0
                    },
                m,
            ),
        n,
    );
    assert forall|j: int| 0 <= j < m implies #[trigger] col_sum(f, j, n) == sum1(
        |i: int|
            if keep_ba(r.rows[j] + l.rows[i]) && h2(r.rows[j] + l.rows[i]) == x {
                1int
            } else {
                0
            },
        n,
    ) by {
        assert forall|i: int| 0 <= i < n implies #[trigger] f(i, j) == (if keep_ba(r.rows[j] + l.rows[i]) && h2(
            r.rows[j] + l.rows[i],
        ) == x {
            1int
        } else {
            0
        }) by {
            assert(f(i, j) == f2(j, i));
        }
        lemma_sum1_ext(
            |i: int| f(i, j),
            |i: int|
                if keep_ba(r.rows[j] + l.rows[i]) && h2(r.rows[j] + l.rows[i]) == x {
                    1int
                } else {
                    0
                },
            n,
        );
    }
    lemma_sum1_ext(
        |j: int| col_sum(f, j, n),
        |j: int|
            sum1(
                |i: int|
                    if keep_ba(r.rows[j] + l.rows[i]) && h2(r.rows[j] + l.rows[i]) == x {
                        1int
                    } else {
                        0
                    },
                n,
            ),
        m,
    );
}

/// A join does not depend on which side comes first, up to the order of columns: over
/// variable-only atoms and tables renamed by them, the join and the swapped join, both
/// projected onto the union of the atoms' terms, hold the same multiset of tuples.
pub proof fn lemma_join_commutes_multiset(a: AtomV, b: AtomV, l: TableV, r: TableV)
    requires
        all_vars(a.terms),
        all_vars(b.terms),
        l.schema == var_names(a.terms),
        r.schema == var_names(b.terms),
        l.wf(),
        r.wf(),
    ensures
        view_rows(project_v(union_terms(a.terms, b.terms), join_v(a, b, l, r))).to_multiset() == view_rows(
            project_v(union_terms(a.terms, b.terms), join_v(b, a, r, l)),
        ).to_multiset(),
{
    let u = union_terms(a.terms, b.terms);
    assert forall|i: int| 0 <= i < u.len() implies a.terms.contains(#[trigger] u[i]) || b.terms.contains(u[i]) by {
        assert(u.contains(u[i]));
        lemma_union_contains(a.terms, b.terms, u[i]);
    }
    assert(all_vars(u)) by {
        assert forall|i: int| 0 <= i < u.len() implies (#[trigger] u[i]) is Variable by {
            if a.terms.contains(u[i]) {
                let k = choose|k: int| 0 <= k < a.terms.len() && a.terms[k] == u[i];
                assert(a.terms[k] is Variable);
            } else {
                let k = choose|k: int| 0 <= k < b.terms.len() && b.terms[k] == u[i];
                assert(b.terms[k] is Variable);
            }
        }
    }
    assert forall|x: Seq<Option<Seq<char>>>|
        view_rows(project_v(u, join_v(a, b, l, r))).to_multiset().count(x) == view_rows(
            project_v(u, join_v(b, a, r, l)),
        ).to_multiset().count(x) by {
        lemma_join_counts_swap(a, b, l, r, u, x);
    }
    assert(view_rows(project_v(u, join_v(a, b, l, r))).to_multiset() =~= view_rows(
        project_v(u, join_v(b, a, r, l)),
    ).to_multiset());
}

} // verus!
