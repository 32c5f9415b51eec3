//! Groups of consecutive items, described by their boundaries.
use vstd::prelude::*;
use crate::partition::{group_cost, max_int};

verus! {

/// The items `a..b` in order; empty when `b <= a`.
pub open spec fn span(a: int, b: int) -> Seq<usize> {
    Seq::new(if b > a { (b - a) as nat } else { 0 }, |x: int| (a + x) as usize)
}

/// The groups cut at the boundaries `b`: group `t` holds the items `b[t]..b[t+1]`.
pub open spec fn rows_of(b: Seq<int>) -> Seq<Seq<usize>> {
    Seq::new(if b.len() > 0 { (b.len() - 1) as nat } else { 0 }, |t: int| span(b[t], b[t + 1]))
}

/// The contents of a list of rows.
pub open spec fn view_rows(v: Seq<Vec<usize>>) -> Seq<Seq<usize>> {
    v.map_values(|r: Vec<usize>| r@)
}

/// Boundaries found by walking back from `i` items and `j` groups: the last
/// group starts at `f(i, j)`, the one before it at `f(f(i, j), j - 1)`, and so on.
pub open spec fn cuts(f: spec_fn(nat, nat) -> nat, i: nat, j: nat) -> Seq<int>
    decreases j,
{
    if j == 0 {
        seq![i as int]
    } else {
        cuts(f, f(i, j), (j - 1) as nat).push(i as int)
    }
}

/// A table of last-group starts, read as a function.
pub open spec fn table_fn(t: Seq<Vec<usize>>) -> spec_fn(nat, nat) -> nat {
    |i: nat, j: nat| t[i as int]@[j as int] as nat
}

/// `b` splits the items `0..n` into `k` non-empty contiguous groups.
pub open spec fn is_partition(b: Seq<int>, n: int, k: int) -> bool {
    &&& b.len() == k + 1
    &&& b[0] == 0
    &&& b[k] == n
    &&& forall|t: int| 0 <= t < k ==> #[trigger] b[t] < b[t + 1]
}

/// Largest group cost of the groups cut at `b` (0 when there is no group).
pub open spec fn max_cost(g: Seq<Vec<u64>>, b: Seq<int>) -> int
    decreases b.len(),
{
    if b.len() <= 1 {
        0
    } else {
        max_int(max_cost(g, b.drop_last()), group_cost(g, b[b.len() - 2], b[b.len() - 1]))
    }
}

/// Every boundary lies between its group count and what the later groups leave.
pub proof fn lemma_partition_bounds(b: Seq<int>, n: int, k: int)
    requires
        is_partition(b, n, k),
    ensures
        forall|t: int| 0 <= t <= k ==> t <= #[trigger] b[t] && b[t] + (k - t) <= n,
{
    assert forall|t: int| 0 <= t <= k implies t <= #[trigger] b[t] by {
        lemma_partition_lower(b, n, k, t);
    }
    assert forall|t: int| 0 <= t <= k implies #[trigger] b[t] + (k - t) <= n by {
        lemma_partition_upper(b, n, k, t);
    }
}

proof fn lemma_partition_lower(b: Seq<int>, n: int, k: int, t: int)
    requires
        is_partition(b, n, k),
        0 <= t <= k,
    ensures
        t <= b[t],
    decreases t,
{
    if t > 0 {
        lemma_partition_lower(b, n, k, t - 1);
        assert(b[t - 1] < b[t]);
    }
}

proof fn lemma_partition_upper(b: Seq<int>, n: int, k: int, t: int)
    requires
        is_partition(b, n, k),
        0 <= t <= k,
    ensures
        b[t] + (k - t) <= n,
    decreases k - t,
{
    if t < k {
        lemma_partition_upper(b, n, k, t + 1);
        assert(b[t] < b[t + 1]);
    }
}

/// Dropping the last boundary of a split leaves a split of the items before it.
pub proof fn lemma_partition_drop_last(b: Seq<int>, n: int, k: int)
    requires
        is_partition(b, n, k),
        k >= 1,
    ensures
        is_partition(b.drop_last(), b[k - 1], k - 1),
{
    let c = b.drop_last();
    assert forall|t: int| 0 <= t < k - 1 implies #[trigger] c[t] < c[t + 1] by {
        assert(b[t] < b[t + 1]);
    }
}

/// The largest group cost of a split whose groups all cost less than `bound`
/// lies in `0..bound`.
pub proof fn lemma_max_cost_range(g: Seq<Vec<u64>>, b: Seq<int>, bound: int)
    requires
        bound > 0,
        forall|t: int| 0 <= t < b.len() - 1 ==> #[trigger] group_cost(g, b[t], b[t + 1]) < bound,
    ensures
        0 <= max_cost(g, b) < bound,
    decreases b.len(),
{
    if b.len() > 1 {
        let c = b.drop_last();
        assert forall|t: int| 0 <= t < c.len() - 1 implies #[trigger] group_cost(g, c[t], c[t + 1]) < bound by {
            assert(c[t] == b[t] && c[t + 1] == b[t + 1]);
        }
        lemma_max_cost_range(g, c, bound);
        let t = b.len() - 2;
        assert(group_cost(g, b[t], b[t + 1]) < bound);
        assert(t + 1 == b.len() - 1);
    }
}

/// The walk back: `j + 1` boundaries ending at `i`, each the table's start
/// for the boundary after it.
pub proof fn lemma_cuts_step(f: spec_fn(nat, nat) -> nat, i: nat, j: nat)
    ensures
        cuts(f, i, j).len() == j + 1,
        cuts(f, i, j)[j as int] == i,
        forall|t: int| 1 <= t <= j ==> #[trigger] cuts(f, i, j)[t - 1] == f(cuts(f, i, j)[t] as nat, t as nat),
        forall|t: int| 0 <= t <= j ==> 0 <= #[trigger] cuts(f, i, j)[t],
    decreases j,
{
    if j > 0 {
        let c = f(i, j);
        lemma_cuts_step(f, c, (j - 1) as nat);
        let pre = cuts(f, c, (j - 1) as nat);
        assert(cuts(f, i, j) == pre.push(i as int));
        assert forall|t: int| 1 <= t <= j implies #[trigger] cuts(f, i, j)[t - 1] == f(cuts(f, i, j)[t] as nat, t as nat) by {
            if t < j {
                assert(cuts(f, i, j)[t - 1] == pre[t - 1]);
                assert(cuts(f, i, j)[t] == pre[t]);
            }
        }
        assert forall|t: int| 0 <= t <= j implies 0 <= #[trigger] cuts(f, i, j)[t] by {
            if t < j {
                assert(cuts(f, i, j)[t] == pre[t]);
            }
        }
    }
}

/// Every cell that the walk back from `n` items and `k` groups reads lies in
/// the table.
pub open spec fn walk_in_table(spl: Seq<Vec<usize>>, n: nat, k: nat) -> bool {
    forall|t: int|
        1 <= t <= k ==> #[trigger] cuts(table_fn(spl), n, k)[t] < spl.len() && t < spl[cuts(
            table_fn(spl),
            n,
            k,
        )[t]]@.len()
}

pub proof fn lemma_cuts_shape(f: spec_fn(nat, nat) -> nat, i: nat, j: nat, n: nat, k: nat)
    requires
        i <= n,
        j <= k,
        forall|a: nat, c: nat| a <= n && 1 <= c <= k ==> #[trigger] f(a, c) <= n,
    ensures
        cuts(f, i, j).len() == j + 1,
        cuts(f, i, j)[j as int] == i,
        forall|t: int| 1 <= t <= j ==> #[trigger] cuts(f, i, j)[t - 1] == f(cuts(f, i, j)[t] as nat, t as nat),
        forall|t: int| 0 <= t <= j ==> 0 <= #[trigger] cuts(f, i, j)[t] <= n,
    decreases j,
{
    if j > 0 {
        let c = f(i, j);
        lemma_cuts_shape(f, c, (j - 1) as nat, n, k);
        let pre = cuts(f, c, (j - 1) as nat);
        assert(cuts(f, i, j) == pre.push(i as int));
        assert forall|t: int| 1 <= t <= j implies #[trigger] cuts(f, i, j)[t - 1] == f(cuts(f, i, j)[t] as nat, t as nat) by {
            if t < j {
                assert(cuts(f, i, j)[t - 1] == pre[t - 1]);
                assert(cuts(f, i, j)[t] == pre[t]);
            }
        }
        assert forall|t: int| 0 <= t <= j implies 0 <= #[trigger] cuts(f, i, j)[t] <= n by {
            if t < j {
                assert(cuts(f, i, j)[t] == pre[t]);
            }
        }
    }
}

/// Two tables that agree on every cell reached give the same boundaries.
pub proof fn lemma_cuts_agree(f: spec_fn(nat, nat) -> nat, h: spec_fn(nat, nat) -> nat, i: nat, j: nat, n: nat, k: nat)
    requires
        i <= n,
        j <= k,
        forall|a: nat, c: nat| a <= n && 1 <= c <= k ==> #[trigger] f(a, c) == h(a, c),
        forall|a: nat, c: nat| a <= n && 1 <= c <= k ==> #[trigger] f(a, c) <= n,
    ensures
        cuts(f, i, j) == cuts(h, i, j),
    decreases j,
{
    if j > 0 {
        assert(f(i, j) == h(i, j));
        lemma_cuts_agree(f, h, f(i, j), (j - 1) as nat, n, k);
    }
}

/// Two adjacent runs of items join into one.
proof fn lemma_span_join(a: int, m: int, c: int)
    requires
        a <= m <= c,
    ensures
        span(a, m) + span(m, c) == span(a, c),
{
    assert(span(a, m) + span(m, c) =~= span(a, c));
}

/// The groups cut at non-decreasing boundaries hold, in order, exactly the
/// items from the first boundary to the last.
pub proof fn lemma_rows_flatten(b: Seq<int>)
    requires
        b.len() >= 1,
        forall|t: int| 0 <= t < b.len() - 1 ==> #[trigger] b[t] <= b[t + 1],
    ensures
        rows_of(b).flatten() == span(b[0], b[b.len() - 1]),
    decreases b.len(),
{
    if b.len() == 1 {
        assert(rows_of(b) =~= Seq::<Seq<usize>>::empty());
        assert(span(b[0], b[0]) =~= Seq::<usize>::empty());
    } else {
        let c = b.drop_last();
        assert forall|t: int| 0 <= t < c.len() - 1 implies #[trigger] c[t] <= c[t + 1] by {
            assert(b[t] <= b[t + 1]);
        }
        lemma_rows_flatten(c);
        let l = b.len() - 2;
        assert(rows_of(b) =~= rows_of(c).push(span(b[l], b[l + 1])));
        rows_of(c).lemma_flatten_push(span(b[l], b[l + 1]));
        assert forall|t: int| 0 <= t <= l implies b[0] <= #[trigger] b[t] by {
            lemma_nondecreasing(b, t);
        }
        assert(b[l] <= b[l + 1]);
        lemma_span_join(b[0], b[l], b[l + 1]);
    }
}

proof fn lemma_nondecreasing(b: Seq<int>, t: int)
    requires
        0 <= t < b.len(),
        forall|s: int| 0 <= s < b.len() - 1 ==> #[trigger] b[s] <= b[s + 1],
    ensures
        b[0] <= b[t],
    decreases t,
{
    if t > 0 {
        lemma_nondecreasing(b, t - 1);
        assert(b[t - 1] <= b[t]);
    }
}

/// The items `a..b` as a vector.
pub fn range_vec(a: usize, b: usize) -> (r: Vec<usize>)
    ensures
        r@ == span(a as int, b as int),
{
    let mut r: Vec<usize> = Vec::new();
    let mut x = a;
    while x < b
        invariant
            a <= x,
            b > a ==> x <= b,
            b <= a ==> x == a,
            r@ == span(a as int, x as int),
        decreases b - x,
    {
        r.push(x);
        x = x + 1;
        assert(r@ =~= span(a as int, x as int));
    }
    assert(r@ =~= span(a as int, b as int));
    r
}

/// Turns a table of last-group starts into the `k` groups of the first `n`
/// items, first group first.
pub fn reconstruct(spl: &[Vec<usize>], n: usize, k: usize) -> (rows: Vec<Vec<usize>>)
    requires
        walk_in_table(spl@, n as nat, k as nat),
    ensures
        view_rows(rows@) == rows_of(cuts(table_fn(spl@), n as nat, k as nat)),
{
    let ghost f = table_fn(spl@);
    let ghost b = cuts(f, n as nat, k as nat);
    proof {
        lemma_cuts_step(f, n as nat, k as nat);
    }
    if k > 0 {
        assert(b[k as int] < spl@.len() && k < spl@[b[k as int]]@.len());
        let last_row = spl[n].len();
        assert(k < last_row);
    }
    let mut cut: Vec<usize> = Vec::new();
    let mut t: usize = 0;
    while t <= k
        invariant
            k < usize::MAX,
            t <= k + 1,
            cut@.len() == t,
        decreases k + 1 - t,
    {
        cut.push(0);
        t = t + 1;
    }
    cut.set(k, n);
    let mut i: usize = n;
    let mut j: usize = k;
    while j > 0
        invariant
            walk_in_table(spl@, n as nat, k as nat),
            f == table_fn(spl@),
            b == cuts(f, n as nat, k as nat),
            b.len() == k + 1,
            b[k as int] == n,
            forall|s: int| 1 <= s <= k ==> #[trigger] b[s - 1] == f(b[s] as nat, s as nat),
            forall|s: int| 0 <= s <= k ==> 0 <= #[trigger] b[s],
            j <= k,
            cut@.len() == k + 1,
            i == b[j as int],
            forall|s: int| j <= s <= k ==> #[trigger] cut@[s] == b[s],
        decreases j,
    {
        assert(b[j as int] < spl@.len() && j < spl@[b[j as int]]@.len());
        let m = spl[i][j];
        assert(b[j - 1] == f(b[j as int] as nat, j as nat));
        cut.set(j - 1, m);
        i = m;
        j = j - 1;
    }
    let mut rows: Vec<Vec<usize>> = Vec::new();
    let mut t: usize = 0;
    while t < k
        invariant
            t <= k,
            cut@.len() == k + 1,
            b.len() == k + 1,
            forall|s: int| 0 <= s <= k ==> #[trigger] cut@[s] == b[s],
            rows@.len() == t,
            forall|s: int| 0 <= s < t ==> #[trigger] rows@[s]@ == span(b[s], b[s + 1]),
        decreases k - t,
    {
        let r = range_vec(cut[t], cut[t + 1]);
        rows.push(r);
        t = t + 1;
    }
    assert(view_rows(rows@) =~= rows_of(b));
    rows
}

} // verus!
