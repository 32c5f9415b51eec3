//! Splitting a row of images into contiguous groups (rows of the collage)
//! so that the largest group cost is as small as possible.
//!
//! Costs are order keys: unsigned integers whose order is the order of the
//! quantities they stand for. A group cost key `g[m][i]` stands for the summed
//! aspect ratio of the images `m..i`; the maximum of two costs is the larger
//! key, and a cost is compared with `<`.
use vstd::prelude::*;
use crate::rows::{
    cuts, is_partition, lemma_cuts_agree, lemma_cuts_shape, lemma_max_cost_range,
    lemma_partition_bounds, lemma_partition_drop_last, lemma_rows_flatten, max_cost, range_vec,
    reconstruct, rows_of, span, table_fn, view_rows, walk_in_table,
};

verus! {

/// Order key of half the largest finite double. A table cell at or above this
/// key means that no partition reaches the cell.
pub const UNREACHABLE: u64 = 0x7fdf_ffff_ffff_ffff;

/// `UNREACHABLE` as a mathematical integer.
pub open spec fn unreachable() -> int {
    UNREACHABLE as int
}

/// The larger of two integers.
pub open spec fn max_int(a: int, b: int) -> int {
    if a >= b {
        a
    } else {
        b
    }
}

/// Cost key of the group made of the items `m..i`.
pub open spec fn group_cost(g: Seq<Vec<u64>>, m: int, i: int) -> int {
    g[m]@[i] as int
}

/// The cost table covers every group `m..i` with `m, i <= n`.
pub open spec fn covers(g: Seq<Vec<u64>>, n: int) -> bool {
    &&& n < g.len()
    &&& forall|m: int| 0 <= m <= n ==> n < #[trigger] g[m]@.len()
}

/// Every group of the first `n` items costs less than `UNREACHABLE`.
pub open spec fn costs_reachable(g: Seq<Vec<u64>>, n: int) -> bool {
    forall|m: int, i: int| 0 <= m < i <= n ==> #[trigger] group_cost(g, m, i) < unreachable()
}

/// Best largest-group cost for the first `i` items in `j` groups, capped at
/// `UNREACHABLE`, by the recurrence the table follows: nothing costs 0, no
/// other prefix splits into 0 groups, and otherwise the last group's start is
/// scanned. `lemma_optimal_partition_minimises_max_cost` shows that this is
/// the smallest largest-group cost of any split when every group is cheaper
/// than `UNREACHABLE`.
pub open spec fn best(g: Seq<Vec<u64>>, i: nat, j: nat) -> int
    decreases j, i + 1,
{
    if j == 0 {
        if i == 0 {
            0
        } else {
            unreachable()
        }
    } else {
        scan(g, i, j, i)
    }
}

/// Cost of closing `j` groups at `i` with the last group starting at `m`.
pub open spec fn candidate(g: Seq<Vec<u64>>, i: nat, j: nat, m: nat) -> int
    recommends
        j > 0,
    decreases j, m + 1, 0nat,
{
    if j == 0 {
        unreachable()
    } else {
        max_int(best(g, m, (j - 1) as nat), group_cost(g, m as int, i as int))
    }
}

/// The best cost found once the last-group starts `j - 1 .. m` have been tried:
/// a start counts only where the first `j - 1` groups are reachable, and a
/// later start replaces an earlier one only when it is strictly cheaper.
pub open spec fn scan(g: Seq<Vec<u64>>, i: nat, j: nat, m: nat) -> int
    decreases j, m, 1nat,
{
    if j == 0 || m < j {
        unreachable()
    } else {
        let prev = scan(g, i, j, (m - 1) as nat);
        let c = candidate(g, i, j, (m - 1) as nat);
        if best(g, (m - 1) as nat, (j - 1) as nat) < unreachable() && c < prev {
            c
        } else {
            prev
        }
    }
}

/// Start of the last group behind `scan(g, i, j, m)`; 0 while none was taken.
pub open spec fn choice_upto(g: Seq<Vec<u64>>, i: nat, j: nat, m: nat) -> nat
    decreases m,
{
    if j == 0 || m < j {
        0
    } else {
        let prev = scan(g, i, j, (m - 1) as nat);
        let c = candidate(g, i, j, (m - 1) as nat);
        if best(g, (m - 1) as nat, (j - 1) as nat) < unreachable() && c < prev {
            (m - 1) as nat
        } else {
            choice_upto(g, i, j, (m - 1) as nat)
        }
    }
}

/// Start of the last of `j` groups in a best split of the first `i` items:
/// the first start that achieves `best(g, i, j)`.
pub open spec fn choice(g: Seq<Vec<u64>>, i: nat, j: nat) -> nat {
    choice_upto(g, i, j, i)
}

/// Both tables have `n + 1` rows of `k + 1` cells.
pub open spec fn table_shape<T>(t: Seq<Vec<T>>, n: int, k: int) -> bool {
    &&& t.len() == n + 1
    &&& forall|i: int| 0 <= i <= n ==> (#[trigger] t[i]@).len() == k + 1
}

/// Column `j >= 1` of the tables: the best cost and best last-group start for
/// every prefix `0..=n`, given column `j - 1` of best costs.
fn dp_column(sums: &Vec<Vec<u64>>, prev: &Vec<u64>, n: usize, j: usize) -> (res: (Vec<u64>, Vec<usize>))
    requires
        covers(sums@, n as int),
        n < usize::MAX,
        j >= 1,
        prev@.len() == n + 1,
        forall|ii: int| 0 <= ii <= n ==> (#[trigger] prev@[ii]) == best(sums@, ii as nat, (j - 1) as nat),
    ensures
        res.0@.len() == n + 1,
        res.1@.len() == n + 1,
        forall|ii: int| 0 <= ii <= n ==> (#[trigger] res.0@[ii]) == best(sums@, ii as nat, j as nat),
        forall|ii: int| 0 <= ii <= n ==> (#[trigger] res.1@[ii]) == choice(sums@, ii as nat, j as nat),
{
    let ghost g = sums@;
    let mut col: Vec<u64> = Vec::new();
    let mut scol: Vec<usize> = Vec::new();
    let mut i: usize = 0;
    while i <= n
        invariant
            covers(g, n as int),
            g == sums@,
            n < usize::MAX,
            j >= 1,
            i <= n + 1,
            col.len() == i,
            scol.len() == i,
            prev@.len() == n + 1,
            forall|ii: int| 0 <= ii <= n ==> (#[trigger] prev@[ii]) == best(g, ii as nat, (j - 1) as nat),
            forall|ii: int| 0 <= ii < i ==> (#[trigger] col@[ii]) == best(g, ii as nat, j as nat),
            forall|ii: int| 0 <= ii < i ==> (#[trigger] scol@[ii]) == choice(g, ii as nat, j as nat),
        decreases n + 1 - i,
    {
        if i < j {
            col.push(UNREACHABLE);
            scol.push(0);
        } else {
            let mut bv: u64 = UNREACHABLE;
            let mut arg: usize = 0;
            let mut m: usize = j - 1;
            while m < i
                invariant
                    covers(g, n as int),
                    g == sums@,
                    1 <= j <= i <= n,
                    j - 1 <= m <= i,
                    prev@.len() == n + 1,
                    forall|ii: int| 0 <= ii <= n ==> (#[trigger] prev@[ii]) == best(g, ii as nat, (j - 1) as nat),
                    bv == scan(g, i as nat, j as nat, m as nat),
                    arg == choice_upto(g, i as nat, j as nat, m as nat),
                decreases i - m,
            {
                let p = prev[m];
                assert(p == best(g, m as nat, (j - 1) as nat));
                if p < UNREACHABLE {
                    let gsum = sums[m][i];
                    let cost = if p >= gsum {
                        p
                    } else {
                        gsum
                    };
                    assert(cost == candidate(g, i as nat, j as nat, m as nat));
                    if cost < bv {
                        bv = cost;
                        arg = m;
                    }
                }
                assert(((m + 1) - 1) as nat == m as nat);
                m = m + 1;
            }
            col.push(bv);
            scol.push(arg);
        }
        i = i + 1;
    }
    (col, scol)
}

/// Fills the table of best costs `dp[i][j]` and of last-group starts `spl[i][j]`
/// for splitting the first `i` of `n` items into `j` contiguous groups, given
/// the cost key `sums[m][i]` of every group `m..i`.
pub fn partition_dp(sums: &Vec<Vec<u64>>, n: usize, k: usize) -> (res: (
    Vec<Vec<u64>>,
    Vec<Vec<usize>>,
))
    requires
        covers(sums@, n as int),
        k < usize::MAX,
    ensures
        table_shape(res.0@, n as int, k as int),
        table_shape(res.1@, n as int, k as int),
        forall|i: int, j: int|
            0 <= i <= n && 0 <= j <= k ==> (#[trigger] res.0@[i]@[j]) == best(sums@, i as nat, j as nat),
        forall|i: int, j: int|
            0 <= i <= n && 0 <= j <= k ==> (#[trigger] res.1@[i]@[j]) == choice(sums@, i as nat, j as nat),
{
    let ghost g = sums@;
    let total = sums.len();
    assert(n < total);
    let mut dp_cols: Vec<Vec<u64>> = Vec::new();
    let mut spl_cols: Vec<Vec<usize>> = Vec::new();
    let mut col0: Vec<u64> = Vec::new();
    let mut scol0: Vec<usize> = Vec::new();
    let mut i: usize = 0;
    while i <= n
        invariant
            n < usize::MAX,
            i <= n + 1,
            col0.len() == i,
            scol0.len() == i,
            forall|ii: int| 0 <= ii < i ==> (#[trigger] col0@[ii]) == best(g, ii as nat, 0),
            forall|ii: int| 0 <= ii < i ==> (#[trigger] scol0@[ii]) == choice(g, ii as nat, 0),
        decreases n + 1 - i,
    {
        if i == 0 {
            col0.push(0);
        } else {
            col0.push(UNREACHABLE);
        }
        scol0.push(0);
        i = i + 1;
    }
    proof {
        lemma_cols_push(dp_cols@, spl_cols@, col0, scol0, g, n as int, 0);
    }
    dp_cols.push(col0);
    spl_cols.push(scol0);
    let mut j: usize = 1;
    while j <= k
        invariant
            covers(g, n as int),
            g == sums@,
            n < usize::MAX,
            k < usize::MAX,
            1 <= j <= k + 1,
            cols_ok(dp_cols@, spl_cols@, g, n as int, j as int),
        decreases k + 1 - j,
    {
        let (col, scol) = dp_column(sums, &dp_cols[j - 1], n, j);
        proof {
            lemma_cols_push(dp_cols@, spl_cols@, col, scol, g, n as int, j as int);
        }
        dp_cols.push(col);
        spl_cols.push(scol);
        j = j + 1;
    }
    transpose_tables(&dp_cols, &spl_cols, n, k, Ghost(g))
}

/// The first `j` columns of both tables are filled.
pub open spec fn cols_ok(dc: Seq<Vec<u64>>, sc: Seq<Vec<usize>>, g: Seq<Vec<u64>>, n: int, j: int) -> bool {
    &&& dc.len() == j
    &&& sc.len() == j
    &&& forall|jj: int| 0 <= jj < j ==> (#[trigger] dc[jj])@.len() == n + 1
    &&& forall|jj: int| 0 <= jj < j ==> (#[trigger] sc[jj])@.len() == n + 1
    &&& forall|jj: int, ii: int|
        0 <= jj < j && 0 <= ii <= n ==> (#[trigger] dc[jj]@[ii]) == best(g, ii as nat, jj as nat)
    &&& forall|jj: int, ii: int|
        0 <= jj < j && 0 <= ii <= n ==> (#[trigger] sc[jj]@[ii]) == choice(g, ii as nat, jj as nat)
}

proof fn lemma_cols_push(dc: Seq<Vec<u64>>, sc: Seq<Vec<usize>>, col: Vec<u64>, scol: Vec<usize>, g: Seq<Vec<u64>>, n: int, j: int)
    requires
        cols_ok(dc, sc, g, n, j),
        col@.len() == n + 1,
        scol@.len() == n + 1,
        forall|ii: int| 0 <= ii <= n ==> (#[trigger] col@[ii]) == best(g, ii as nat, j as nat),
        forall|ii: int| 0 <= ii <= n ==> (#[trigger] scol@[ii]) == choice(g, ii as nat, j as nat),
    ensures
        cols_ok(dc.push(col), sc.push(scol), g, n, j + 1),
{
    let dc2 = dc.push(col);
    let sc2 = sc.push(scol);
    assert forall|jj: int| 0 <= jj < j + 1 implies (#[trigger] dc2[jj])@.len() == n + 1 by {
        if jj < j {
            assert(dc2[jj] == dc[jj]);
        }
    }
    assert forall|jj: int| 0 <= jj < j + 1 implies (#[trigger] sc2[jj])@.len() == n + 1 by {
        if jj < j {
            assert(sc2[jj] == sc[jj]);
        }
    }
    assert forall|jj: int, ii: int| 0 <= jj < j + 1 && 0 <= ii <= n implies (#[trigger] dc2[jj]@[ii])
        == best(g, ii as nat, jj as nat) by {
        if jj < j {
            assert(dc2[jj] == dc[jj]);
        } else {
            assert(dc2[jj] == col);
        }
    }
    assert forall|jj: int, ii: int| 0 <= jj < j + 1 && 0 <= ii <= n implies (#[trigger] sc2[jj]@[ii])
        == choice(g, ii as nat, jj as nat) by {
        if jj < j {
            assert(sc2[jj] == sc[jj]);
        } else {
            assert(sc2[jj] == scol);
        }
    }
}

/// The first `i` rows of both row-major tables are filled.
pub open spec fn rows_ok(dr: Seq<Vec<u64>>, sr: Seq<Vec<usize>>, g: Seq<Vec<u64>>, k: int, i: int) -> bool {
    &&& dr.len() == i
    &&& sr.len() == i
    &&& forall|ii: int| 0 <= ii < i ==> (#[trigger] dr[ii])@.len() == k + 1
    &&& forall|ii: int| 0 <= ii < i ==> (#[trigger] sr[ii])@.len() == k + 1
    &&& forall|ii: int, jj: int|
        0 <= ii < i && 0 <= jj <= k ==> (#[trigger] dr[ii]@[jj]) == best(g, ii as nat, jj as nat)
    &&& forall|ii: int, jj: int|
        0 <= ii < i && 0 <= jj <= k ==> (#[trigger] sr[ii]@[jj]) == choice(g, ii as nat, jj as nat)
}

proof fn lemma_rows_push(dr: Seq<Vec<u64>>, sr: Seq<Vec<usize>>, row: Vec<u64>, srow: Vec<usize>, g: Seq<Vec<u64>>, k: int, i: int)
    requires
        rows_ok(dr, sr, g, k, i),
        row@.len() == k + 1,
        srow@.len() == k + 1,
        forall|jj: int| 0 <= jj <= k ==> (#[trigger] row@[jj]) == best(g, i as nat, jj as nat),
        forall|jj: int| 0 <= jj <= k ==> (#[trigger] srow@[jj]) == choice(g, i as nat, jj as nat),
    ensures
        rows_ok(dr.push(row), sr.push(srow), g, k, i + 1),
{
    let dr2 = dr.push(row);
    let sr2 = sr.push(srow);
    assert forall|ii: int| 0 <= ii < i + 1 implies (#[trigger] dr2[ii])@.len() == k + 1 by {
        if ii < i {
            assert(dr2[ii] == dr[ii]);
        }
    }
    assert forall|ii: int| 0 <= ii < i + 1 implies (#[trigger] sr2[ii])@.len() == k + 1 by {
        if ii < i {
            assert(sr2[ii] == sr[ii]);
        }
    }
    assert forall|ii: int, jj: int| 0 <= ii < i + 1 && 0 <= jj <= k implies (#[trigger] dr2[ii]@[jj])
        == best(g, ii as nat, jj as nat) by {
        if ii < i {
            assert(dr2[ii] == dr[ii]);
        } else {
            assert(dr2[ii] == row);
        }
    }
    assert forall|ii: int, jj: int| 0 <= ii < i + 1 && 0 <= jj <= k implies (#[trigger] sr2[ii]@[jj])
        == choice(g, ii as nat, jj as nat) by {
        if ii < i {
            assert(sr2[ii] == sr[ii]);
        } else {
            assert(sr2[ii] == srow);
        }
    }
}

/// Rearranges the column-major tables into row-major ones.
fn transpose_tables(dp_cols: &Vec<Vec<u64>>, spl_cols: &Vec<Vec<usize>>, n: usize, k: usize, Ghost(g): Ghost<Seq<Vec<u64>>>) -> (res: (
    Vec<Vec<u64>>,
    Vec<Vec<usize>>,
))
    requires
        n < usize::MAX,
        k < usize::MAX,
        cols_ok(dp_cols@, spl_cols@, g, n as int, k + 1),
    ensures
        table_shape(res.0@, n as int, k as int),
        table_shape(res.1@, n as int, k as int),
        forall|i: int, j: int|
            0 <= i <= n && 0 <= j <= k ==> (#[trigger] res.0@[i]@[j]) == best(g, i as nat, j as nat),
        forall|i: int, j: int|
            0 <= i <= n && 0 <= j <= k ==> (#[trigger] res.1@[i]@[j]) == choice(g, i as nat, j as nat),
{
    let mut dp: Vec<Vec<u64>> = Vec::new();
    let mut spl: Vec<Vec<usize>> = Vec::new();
    let mut i: usize = 0;
    while i <= n
        invariant
            n < usize::MAX,
            k < usize::MAX,
            i <= n + 1,
            cols_ok(dp_cols@, spl_cols@, g, n as int, k + 1),
            rows_ok(dp@, spl@, g, k as int, i as int),
        decreases n + 1 - i,
    {
        let mut row: Vec<u64> = Vec::new();
        let mut srow: Vec<usize> = Vec::new();
        let mut jj: usize = 0;
        while jj <= k
            invariant
                n < usize::MAX,
                k < usize::MAX,
                i <= n,
                jj <= k + 1,
                row.len() == jj,
                srow.len() == jj,
                cols_ok(dp_cols@, spl_cols@, g, n as int, k + 1),
                forall|c: int| 0 <= c < jj ==> (#[trigger] row@[c]) == best(g, i as nat, c as nat),
                forall|c: int| 0 <= c < jj ==> (#[trigger] srow@[c]) == choice(g, i as nat, c as nat),
            decreases k + 1 - jj,
        {
            assert(dp_cols@[jj as int]@.len() == n + 1);
            row.push(dp_cols[jj][i]);
            srow.push(spl_cols[jj][i]);
            jj = jj + 1;
        }
        proof {
            lemma_rows_push(dp@, spl@, row, srow, g, k as int, i as int);
        }
        dp.push(row);
        spl.push(srow);
        i = i + 1;
    }
    (dp, spl)
}

/// The best last-group starts, read as a function.
pub open spec fn choice_fn(g: Seq<Vec<u64>>) -> spec_fn(nat, nat) -> nat {
    |i: nat, j: nat| choice(g, i, j)
}

/// What a scan over the starts `j - 1 .. m` yields: never more than
/// `UNREACHABLE`, never more than a reachable candidate, and, when below
/// `UNREACHABLE`, exactly the candidate at the start it chose.
proof fn lemma_scan(g: Seq<Vec<u64>>, i: nat, j: nat, m: nat)
    requires
        j >= 1,
    ensures
        scan(g, i, j, m) <= unreachable(),
        choice_upto(g, i, j, m) <= m,
        forall|x: nat|
            j - 1 <= x < m && best(g, x, (j - 1) as nat) < unreachable() ==> scan(g, i, j, m)
                <= #[trigger] candidate(g, i, j, x),
        scan(g, i, j, m) < unreachable() ==> {
            &&& j - 1 <= choice_upto(g, i, j, m) < m
            &&& best(g, choice_upto(g, i, j, m), (j - 1) as nat) < unreachable()
            &&& candidate(g, i, j, choice_upto(g, i, j, m)) == scan(g, i, j, m)
        },
    decreases m,
{
    if m >= j {
        lemma_scan(g, i, j, (m - 1) as nat);
    }
}

/// The best last-group start never lies past the prefix it closes.
proof fn lemma_choice_le(g: Seq<Vec<u64>>, i: nat, j: nat)
    ensures
        choice(g, i, j) <= i,
{
    if j >= 1 {
        lemma_scan(g, i, j, i);
    }
}

/// When every group is cheaper than `UNREACHABLE`, every prefix of `i` items
/// can be cut into any `1 <= j <= i` groups.
proof fn lemma_reachable(g: Seq<Vec<u64>>, n: nat, i: nat, j: nat)
    requires
        costs_reachable(g, n as int),
        1 <= j <= i <= n,
    ensures
        best(g, i, j) < unreachable(),
    decreases j,
{
    lemma_scan(g, i, j, i);
    if j == 1 {
        assert(group_cost(g, 0, i as int) < unreachable());
        assert(candidate(g, i, j, 0) < unreachable());
    } else {
        let x = (i - 1) as nat;
        lemma_reachable(g, n, x, (j - 1) as nat);
        assert(group_cost(g, x as int, i as int) < unreachable());
        assert(candidate(g, i, j, x) < unreachable());
    }
}

/// No split of the first `i` items into `j` groups has a largest group
/// cost below `best(g, i, j)`.
proof fn lemma_best_lower(g: Seq<Vec<u64>>, n: nat, i: nat, j: nat, b: Seq<int>)
    requires
        costs_reachable(g, n as int),
        i <= n,
        is_partition(b, i as int, j as int),
    ensures
        best(g, i, j) <= max_cost(g, b),
    decreases j,
{
    if j >= 1 {
        lemma_partition_bounds(b, i as int, j as int);
        let m = b[j - 1];
        assert(b[j - 1] < b[j as int]);
        let c = b.drop_last();
        lemma_partition_drop_last(b, i as int, j as int);
        lemma_best_lower(g, n, m as nat, (j - 1) as nat, c);
        assert forall|t: int| 0 <= t < c.len() - 1 implies #[trigger] group_cost(g, c[t], c[t + 1]) < unreachable() by {
            assert(c[t] < c[t + 1]);
            lemma_partition_bounds(c, m, j - 1);
        }
        lemma_max_cost_range(g, c, unreachable());
        lemma_scan(g, i, j, i);
        assert(candidate(g, i, j, m as nat) == max_int(best(g, m as nat, (j - 1) as nat), group_cost(g, m, i as int)));
        assert(b.len() - 2 == j - 1);
    }
}

/// The boundaries read back from the best starts cut the first `i` items
/// into `j` groups whose largest cost is `best(g, i, j)`.
proof fn lemma_cuts_optimal(g: Seq<Vec<u64>>, n: nat, i: nat, j: nat)
    requires
        costs_reachable(g, n as int),
        j <= i <= n,
        j == 0 ==> i == 0,
    ensures
        is_partition(cuts(choice_fn(g), i, j), i as int, j as int),
        max_cost(g, cuts(choice_fn(g), i, j)) == best(g, i, j),
    decreases j,
{
    if j >= 1 {
        lemma_reachable(g, n, i, j);
        lemma_scan(g, i, j, i);
        let c = choice(g, i, j);
        assert(choice_fn(g)(i, j) == c);
        lemma_cuts_optimal(g, n, c, (j - 1) as nat);
        let pre = cuts(choice_fn(g), c, (j - 1) as nat);
        let b = cuts(choice_fn(g), i, j);
        assert(b == pre.push(i as int));
        assert(b.drop_last() =~= pre);
        assert forall|t: int| 0 <= t < j implies #[trigger] b[t] < b[t + 1] by {
            if t < j - 1 {
                assert(b[t] == pre[t] && b[t + 1] == pre[t + 1]);
            }
        }
    }
}

/// Law: every cell of the table is a minimum. For `1 <= j <= i <= n`, and
/// given that no group costs `UNREACHABLE` or more, `best(g, i, j)` (the cell
/// `dp[i][j]` that `partition_dp` fills) is no larger than the largest group
/// cost of any split of the first `i` items into `j` non-empty contiguous
/// groups, and the split read back from the best starts reaches it.
pub proof fn lemma_best_is_min_over_splits(g: Seq<Vec<u64>>, n: nat, i: nat, j: nat, b: Seq<int>)
    requires
        costs_reachable(g, n as int),
        1 <= j <= i <= n,
        is_partition(b, i as int, j as int),
    ensures
        best(g, i, j) <= max_cost(g, b),
        is_partition(cuts(choice_fn(g), i, j), i as int, j as int),
        max_cost(g, cuts(choice_fn(g), i, j)) == best(g, i, j),
{
    lemma_best_lower(g, n, i, j, b);
    lemma_cuts_optimal(g, n, i, j);
}

/// Law: of all the ways to cut `n` items into `k` non-empty contiguous
/// groups, the split that `optimal_partition` returns has the smallest largest
/// group cost (given that no group costs `UNREACHABLE` or more).
pub proof fn lemma_optimal_partition_minimises_max_cost(g: Seq<Vec<u64>>, n: nat, k: nat, b: Seq<int>)
    requires
        costs_reachable(g, n as int),
        1 <= k <= n,
        is_partition(b, n as int, k as int),
    ensures
        is_partition(optimal_bounds(g, n, k), n as int, k as int),
        max_cost(g, optimal_bounds(g, n, k)) <= max_cost(g, b),
{
    lemma_partition_bounds(b, n as int, k as int);
    if k == 1 {
        assert(b =~= optimal_bounds(g, n, k));
    } else if k == n {
        assert(b =~= optimal_bounds(g, n, k));
        let o = optimal_bounds(g, n, k);
        assert forall|t: int| 0 <= t < k implies #[trigger] o[t] < o[t + 1] by {}
    } else {
        lemma_cuts_optimal(g, n, n, k);
        lemma_best_lower(g, n, n, k, b);
    }
}

/// With a single group the only start there is, 0, is the one chosen.
proof fn lemma_choice_first_group(g: Seq<Vec<u64>>, i: nat, m: nat)
    ensures
        choice_upto(g, i, 1, m) == 0,
    decreases m,
{
    if m >= 1 {
        lemma_choice_first_group(g, i, (m - 1) as nat);
    }
}

/// Law: every item lands in exactly one group of the split that
/// `optimal_partition` returns, and the groups keep the items in order
/// (for any cost table, and `k` clamped to `n` as the function does).
pub proof fn lemma_optimal_partition_places_every_item(g: Seq<Vec<u64>>, n: nat, k: nat)
    requires
        k <= n,
        k == 0 ==> n == 0,
    ensures
        rows_of(optimal_bounds(g, n, k)).flatten() == span(0, n as int),
{
    let o = optimal_bounds(g, n, k);
    if k == 1 {
    } else if k == n {
        assert forall|t: int| 0 <= t < o.len() - 1 implies #[trigger] o[t] <= o[t + 1] by {}
    } else {
        let f = choice_fn(g);
        assert forall|a: nat, c: nat| a <= n && 1 <= c <= k implies #[trigger] f(a, c) <= n by {
            lemma_choice_le(g, a, c);
        }
        lemma_cuts_shape(f, n, k, n, k);
        assert forall|t: int| 0 <= t < o.len() - 1 implies #[trigger] o[t] <= o[t + 1] by {
            lemma_choice_le(g, o[t + 1] as nat, (t + 1) as nat);
        }
        lemma_choice_first_group(g, o[1] as nat, o[1] as nat);
        assert(o[0] == f(o[1] as nat, 1));
    }
    lemma_rows_flatten(o);
}

/// The split that `optimal_partition` returns for `n` items and `k <= n` groups.
pub open spec fn optimal_bounds(g: Seq<Vec<u64>>, n: nat, k: nat) -> Seq<int> {
    if k == 1 {
        seq![0, n as int]
    } else if k == n {
        Seq::new(n + 1, |t: int| t)
    } else {
        cuts(choice_fn(g), n, k)
    }
}

/// The most rows a collage is tried with.
pub const MAX_ROWS: usize = 20;

/// The smaller of two counts.
pub open spec fn min_nat(a: nat, b: nat) -> nat {
    if a <= b {
        a
    } else {
        b
    }
}

/// Splits the `n` items into `min(k, n)` contiguous groups whose largest
/// group cost is as small as possible, given the cost key `sums[m][i]` of
/// every group `m..i`.
pub fn optimal_partition(sums: &Vec<Vec<u64>>, n: usize, k: usize) -> (rows: Vec<Vec<usize>>)
    requires
        covers(sums@, n as int),
    ensures
        view_rows(rows@) == rows_of(optimal_bounds(sums@, n as nat, min_nat(k as nat, n as nat))),
{
    let ghost g = sums@;
    let total = sums.len();
    assert(n < total);
    let k = if k < n {
        k
    } else {
        n
    };
    if k == 1 {
        let mut rows: Vec<Vec<usize>> = Vec::new();
        rows.push(range_vec(0, n));
        assert(view_rows(rows@) =~= rows_of(optimal_bounds(g, n as nat, k as nat)));
        return rows;
    }
    if k == n {
        let mut rows: Vec<Vec<usize>> = Vec::new();
        let mut i: usize = 0;
        while i < n
            invariant
                i <= n,
                k == n,
                rows@.len() == i,
                forall|t: int| 0 <= t < i ==> (#[trigger] rows@[t])@ == span(t, t + 1),
            decreases n - i,
        {
            rows.push(range_vec(i, i + 1));
            i = i + 1;
        }
        let ghost o = optimal_bounds(g, n as nat, k as nat);
        assert(view_rows(rows@) =~= rows_of(o));
        return rows;
    }
    let (_dp, spl) = partition_dp(sums, n, k);
    proof {
        let f = table_fn(spl@);
        let h = choice_fn(g);
        assert forall|a: nat, c: nat| a <= n && 1 <= c <= k implies #[trigger] f(a, c) == h(a, c) by {
            assert(spl@[a as int]@[c as int] == choice(g, a, c));
        }
        assert forall|a: nat, c: nat| a <= n && 1 <= c <= k implies #[trigger] f(a, c) <= n by {
            assert(spl@[a as int]@[c as int] == choice(g, a, c));
            lemma_choice_le(g, a, c);
        }
        lemma_cuts_agree(f, h, n as nat, k as nat, n as nat, k as nat);
        lemma_cuts_shape(f, n as nat, k as nat, n as nat, k as nat);
        let c = cuts(f, n as nat, k as nat);
        assert forall|t: int| 1 <= t <= k implies #[trigger] c[t] < spl@.len() && t < spl@[c[t]]@.len() by {
            assert(0 <= c[t] <= n);
        }
        assert(walk_in_table(spl@, n as nat, k as nat));
    }
    reconstruct(&spl, n, k)
}

/// The best split of the `n` items into each row count `1..=min(n, MAX_ROWS)`,
/// fewest rows first.
pub fn candidate_partitions(sums: &Vec<Vec<u64>>, n: usize) -> (cands: Vec<Vec<Vec<usize>>>)
    requires
        covers(sums@, n as int),
    ensures
        cands@.len() == min_nat(n as nat, MAX_ROWS as nat),
        forall|t: int|
            0 <= t < cands@.len() ==> view_rows((#[trigger] cands@[t])@) == rows_of(
                optimal_bounds(sums@, n as nat, (t + 1) as nat),
            ),
{
    let max_k = if n < MAX_ROWS {
        n
    } else {
        MAX_ROWS
    };
    let mut cands: Vec<Vec<Vec<usize>>> = Vec::new();
    let mut k: usize = 1;
    while k <= max_k
        invariant
            covers(sums@, n as int),
            max_k == min_nat(n as nat, MAX_ROWS as nat),
            1 <= k <= max_k + 1,
            cands@.len() == k - 1,
            forall|t: int|
                0 <= t < cands@.len() ==> view_rows((#[trigger] cands@[t])@) == rows_of(
                    optimal_bounds(sums@, n as nat, (t + 1) as nat),
                ),
        decreases max_k + 1 - k,
    {
        let rows = optimal_partition(sums, n, k);
        assert(min_nat(k as nat, n as nat) == k);
        cands.push(rows);
        k = k + 1;
    }
    cands
}

/// Index of the first smallest score: no score is smaller, and every score
/// before it is larger.
pub open spec fn is_first_min(scores: Seq<u64>, idx: int) -> bool {
    &&& 0 <= idx < scores.len()
    &&& forall|t: int| 0 <= t < scores.len() ==> scores[idx] <= #[trigger] scores[t]
    &&& forall|t: int| 0 <= t < idx ==> scores[idx] < #[trigger] scores[t]
}

/// Index of the first smallest of the scores, or `None` when there is none.
pub fn first_min_index(scores: &Vec<u64>) -> (idx: Option<usize>)
    ensures
        scores@.len() == 0 <==> idx is None,
        idx matches Some(i) ==> is_first_min(scores@, i as int),
{
    if scores.len() == 0 {
        return None;
    }
    let mut best_i: usize = 0;
    let mut t: usize = 1;
    while t < scores.len()
        invariant
            1 <= t <= scores@.len(),
            is_first_min(scores@.subrange(0, t as int), best_i as int),
        decreases scores@.len() - t,
    {
        if scores[t] < scores[best_i] {
            best_i = t;
        }
        t = t + 1;
        assert(scores@.subrange(0, t as int) =~= scores@.subrange(0, t - 1).push(scores@[t - 1]));
    }
    assert(scores@.subrange(0, t as int) =~= scores@);
    Some(best_i)
}

/// Picks the candidate split with the first smallest score; empty when there
/// is no candidate. `scores[t]` is the order key of the score of `cands[t]`.
pub fn best_partition(cands: Vec<Vec<Vec<usize>>>, scores: &Vec<u64>) -> (rows: Vec<Vec<usize>>)
    requires
        scores@.len() == cands@.len(),
    ensures
        cands@.len() == 0 ==> rows@.len() == 0,
        cands@.len() > 0 ==> exists|i: int| is_first_min(scores@, i) && rows == cands@[i],
{
    let mut cands = cands;
    match first_min_index(scores) {
        None => Vec::new(),
        Some(i) => {
            let rows = cands.swap_remove(i);
            rows
        },
    }
}

} // verus!
