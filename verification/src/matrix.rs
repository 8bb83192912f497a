//! Square integer matrices as sequences of rows: row and column sums, and
//! what holds of them when the matrix is antisymmetric.

use vstd::prelude::*;
use crate::sums::{
    lemma_partial_sum_agree, lemma_partial_sum_nonneg, lemma_partial_sum_plus,
    lemma_partial_sum_zero, partial_sum, total,
};

verus! {

/// `m` has `n` rows of `n` entries each.
pub open spec fn square(m: Seq<Seq<int>>, n: int) -> bool {
    &&& m.len() == n
    &&& forall|u: int| 0 <= u < n ==> (#[trigger] m[u]).len() == n
}

/// Column `v` of `m`, read from the first row down.
pub open spec fn column(m: Seq<Seq<int>>, v: int) -> Seq<int> {
    Seq::new(m.len(), |u: int| m[u][v])
}

/// The sum of row `u`.
pub open spec fn row_sum(m: Seq<Seq<int>>, u: int) -> int {
    total(m[u])
}

/// The sum of column `v`.
pub open spec fn col_sum(m: Seq<Seq<int>>, v: int) -> int {
    total(column(m, v))
}

/// The row sums of `m`, one per row.
pub open spec fn row_sums(m: Seq<Seq<int>>) -> Seq<int> {
    Seq::new(m.len(), |u: int| row_sum(m, u))
}

/// The column sums of a square `m`, one per column.
pub open spec fn col_sums(m: Seq<Seq<int>>) -> Seq<int> {
    Seq::new(m.len(), |v: int| col_sum(m, v))
}

/// `m[u][v] == -m[v][u]` throughout.
pub open spec fn antisymmetric(m: Seq<Seq<int>>) -> bool {
    forall|u: int, v: int|
        0 <= u < m.len() && 0 <= v < m.len() ==> #[trigger] m[u][v] == -m[v][u]
}

/// For each column, the sum of its entries in the first `k` rows.
pub open spec fn col_partials(m: Seq<Seq<int>>, k: int) -> Seq<int> {
    Seq::new(m.len(), |v: int| partial_sum(column(m, v), k))
}

/// The first `k` rows add up to the same number by rows and by columns.
proof fn lemma_rows_then_columns(m: Seq<Seq<int>>, n: int, k: int)
    requires
        square(m, n),
        0 <= k <= n,
    ensures
        partial_sum(row_sums(m), k) == total(col_partials(m, k)),
    decreases k,
{
    if k == 0 {
        lemma_partial_sum_zero(col_partials(m, 0), n);
    } else {
        lemma_rows_then_columns(m, n, k - 1);
        let before = col_partials(m, k - 1);
        let after = col_partials(m, k);
        assert forall|v: int| 0 <= v < n implies after[v] == before[v] + #[trigger] m[k - 1][v] by {
            assert(column(m, v)[k - 1] == m[k - 1][v]);
        }
        lemma_partial_sum_plus(before, m[k - 1], after, n);
    }
}

/// Adding a square matrix up by rows or by columns gives the same number.
pub proof fn lemma_row_sums_total_is_col_sums_total(m: Seq<Seq<int>>, n: int)
    requires
        square(m, n),
    ensures
        total(row_sums(m)) == total(col_sums(m)),
{
    lemma_rows_then_columns(m, n, n);
    lemma_partial_sum_agree(col_partials(m, n), col_sums(m), n);
}

/// In an antisymmetric matrix a column adds up to minus the row of the same
/// index.
pub proof fn lemma_antisymmetric_col_sum(m: Seq<Seq<int>>, n: int, v: int)
    requires
        square(m, n),
        antisymmetric(m),
        0 <= v < n,
    ensures
        col_sum(m, v) == -row_sum(m, v),
{
    let zeros = Seq::new(n as nat, |i: int| 0int);
    assert forall|i: int| 0 <= i < n implies zeros[i] == column(m, v)[i] + m[v][i] by {
        assert(m[i][v] == -m[v][i]);
    }
    lemma_partial_sum_plus(column(m, v), m[v], zeros, n);
    lemma_partial_sum_zero(zeros, n);
}

/// The entries of an antisymmetric matrix add up to zero.
pub proof fn lemma_antisymmetric_total(m: Seq<Seq<int>>, n: int)
    requires
        square(m, n),
        antisymmetric(m),
    ensures
        total(row_sums(m)) == 0,
{
    let zeros = Seq::new(n as nat, |i: int| 0int);
    assert forall|i: int| 0 <= i < n implies zeros[i] == row_sums(m)[i] + col_sums(m)[i] by {
        lemma_antisymmetric_col_sum(m, n, i);
    }
    lemma_partial_sum_plus(row_sums(m), col_sums(m), zeros, n);
    lemma_partial_sum_zero(zeros, n);
    lemma_row_sums_total_is_col_sums_total(m, n);
}

/// Take an antisymmetric matrix and a set of indices, given by `member`, such
/// that no entry that leads from a member to a non-member is negative. Then
/// the rows of the members together add up to a non-negative number.
/// `inside` holds the row sum for each member and zero for the others.
pub proof fn lemma_antisymmetric_cut(
    m: Seq<Seq<int>>,
    n: int,
    member: Seq<bool>,
    inside: Seq<int>,
)
    requires
        square(m, n),
        antisymmetric(m),
        member.len() == n,
        inside.len() == n,
        forall|u: int, v: int|
            0 <= u < n && 0 <= v < n && member[u] && !member[v] ==> #[trigger] m[u][v] >= 0,
        forall|u: int|
            0 <= u < n ==> #[trigger] inside[u] == if member[u] {
                row_sum(m, u)
            } else {
                0
            },
    ensures
        total(inside) >= 0,
{
    let within = Seq::new(
        n as nat,
        |u: int| Seq::new(n as nat, |v: int| if member[u] && member[v] { m[u][v] } else { 0 }),
    );
    let across = Seq::new(
        n as nat,
        |u: int| Seq::new(n as nat, |v: int| if member[u] && !member[v] { m[u][v] } else { 0 }),
    );
    assert(square(within, n));
    assert(square(across, n));
    assert forall|u: int, v: int| 0 <= u < n && 0 <= v < n implies #[trigger] within[u][v]
        == -within[v][u] by {
        assert(m[u][v] == -m[v][u]);
    }
    lemma_antisymmetric_total(within, n);
    assert forall|u: int| 0 <= u < n implies #[trigger] inside[u] == row_sums(within)[u]
        + row_sums(across)[u] by {
        if member[u] {
            assert forall|v: int| 0 <= v < n implies m[u][v] == within[u][v] + across[u][v] by {}
            lemma_partial_sum_plus(within[u], across[u], m[u], n);
        } else {
            lemma_partial_sum_zero(within[u], n);
            lemma_partial_sum_zero(across[u], n);
        }
    }
    lemma_partial_sum_plus(row_sums(within), row_sums(across), inside, n);
    assert forall|u: int| 0 <= u < n implies #[trigger] row_sums(across)[u] >= 0 by {
        assert forall|v: int| 0 <= v < n implies across[u][v] >= 0 by {
            if member[u] && !member[v] {
                assert(m[u][v] >= 0);
            }
        }
        lemma_partial_sum_nonneg(across[u], n);
    }
    lemma_partial_sum_nonneg(row_sums(across), n);
}

} // verus!
