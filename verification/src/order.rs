//! The order of paths: component by component, as `std::path::Path` orders
//! them on Unix.
//!
//! A path's components are an optional root (`/` at the start), an optional
//! current-directory mark (a leading `.` component of a relative path), then
//! its `/`-separated parts, with empty and `.` parts skipped. Components
//! order root < current directory < `..` < a normal name, and two names by
//! their bytes. Each path is given a sort key, a sequence of tokens in which
//! every component is written as its kind, its bytes (shifted above the
//! kinds) and a closing 0; comparing keys lexicographically compares the
//! component sequences.
use vstd::prelude::*;
use crate::path::{dot, dot_dot, is_dir_prefix, is_plain_name};

verus! {

/// Index of the first `/` in `s`, or `s.len()` when there is none.
pub open spec fn first_sep(s: Seq<u8>) -> int
    decreases s.len(),
{
    if s.len() == 0 {
        0
    } else if s[0] == 47u8 {
        0
    } else {
        1 + first_sep(s.drop_first())
    }
}

/// `first_sep` lies within the sequence.
pub proof fn lemma_first_sep_bound(s: Seq<u8>)
    ensures
        0 <= first_sep(s) <= s.len(),
    decreases s.len(),
{
    if s.len() > 0 && s[0] != 47u8 {
        lemma_first_sep_bound(s.drop_first());
    }
}

/// Key tokens of one `/`-separated part: nothing for an empty or `.` part,
/// the `..` kind for `..`, otherwise the name kind, the shifted bytes and 0.
pub open spec fn part_key(p: Seq<u8>) -> Seq<u32> {
    if p.len() == 0 || p == dot() {
        Seq::empty()
    } else if p == dot_dot() {
        seq![3u32, 0u32]
    } else {
        seq![4u32] + p.map_values(|b: u8| (b + 5) as u32) + seq![0u32]
    }
}

/// Key tokens of all `/`-separated parts of `s`, in order.
pub open spec fn parts_key(s: Seq<u8>) -> Seq<u32>
    decreases s.len(),
{
    let f = first_sep(s);
    if f >= s.len() {
        part_key(s)
    } else {
        proof {
            lemma_first_sep_bound(s);
        }
        part_key(s.subrange(0, f)) + parts_key(s.subrange(f + 1, s.len() as int))
    }
}

/// The sort key of a path.
pub open spec fn path_key(s: Seq<u8>) -> Seq<u32> {
    let rooted = s.len() > 0 && s[0] == 47u8;
    let cur = !rooted && s.len() > 0 && s[0] == 46u8 && (s.len() == 1 || s[1] == 47u8);
    (if rooted {
        seq![1u32, 0u32]
    } else if cur {
        seq![2u32, 0u32]
    } else {
        Seq::empty()
    }) + parts_key(s)
}

/// Lexicographic order of keys; a proper prefix comes first.
pub open spec fn key_lt(a: Seq<u32>, b: Seq<u32>) -> bool
    decreases a.len(),
{
    if a.len() == 0 {
        b.len() > 0
    } else if b.len() == 0 {
        false
    } else if a[0] != b[0] {
        a[0] < b[0]
    } else {
        key_lt(a.drop_first(), b.drop_first())
    }
}

/// No key comes before itself.
pub proof fn lemma_key_lt_irreflexive(a: Seq<u32>)
    ensures
        !key_lt(a, a),
    decreases a.len(),
{
    if a.len() > 0 {
        lemma_key_lt_irreflexive(a.drop_first());
    }
}

/// Of two different keys one comes first, and never both.
pub proof fn lemma_key_lt_total(a: Seq<u32>, b: Seq<u32>)
    ensures
        a != b ==> key_lt(a, b) || key_lt(b, a),
        !(key_lt(a, b) && key_lt(b, a)),
    decreases a.len(),
{
    if a.len() > 0 && b.len() > 0 && a[0] == b[0] {
        lemma_key_lt_total(a.drop_first(), b.drop_first());
        if a.drop_first() == b.drop_first() {
            assert(a =~= seq![a[0]] + a.drop_first());
            assert(b =~= seq![b[0]] + b.drop_first());
        }
    } else if a.len() == 0 && b.len() == 0 {
        assert(a =~= b);
    }
}

/// The key order is transitive.
pub proof fn lemma_key_lt_transitive(a: Seq<u32>, b: Seq<u32>, c: Seq<u32>)
    requires
        key_lt(a, b),
        key_lt(b, c),
    ensures
        key_lt(a, c),
    decreases a.len(),
{
    if a.len() > 0 && b.len() > 0 && c.len() > 0 && a[0] == b[0] && b[0] == c[0] {
        lemma_key_lt_transitive(a.drop_first(), b.drop_first(), c.drop_first());
    }
}

/// Whether key `a` comes before key `b`.
pub fn key_less(a: &Vec<u32>, b: &Vec<u32>) -> (r: bool)
    ensures
        r == key_lt(a@, b@),
{
    let mut i: usize = 0;
    assert(a@.skip(0) =~= a@);
    assert(b@.skip(0) =~= b@);
    while i < a.len() && i < b.len()
        invariant
            i <= a@.len(),
            i <= b@.len(),
            key_lt(a@, b@) == key_lt(a@.skip(i as int), b@.skip(i as int)),
        decreases a@.len() - i,
    {
        if a[i] != b[i] {
            return a[i] < b[i];
        }
        assert(a@.skip(i as int).drop_first() =~= a@.skip(i + 1));
        assert(b@.skip(i as int).drop_first() =~= b@.skip(i + 1));
        i = i + 1;
    }
    a.len() < b.len()
}

proof fn lemma_first_sep_at(s: Seq<u8>, i: int)
    requires
        0 <= i <= s.len(),
        forall|x: int| 0 <= x < i ==> #[trigger] s[x] != 47u8,
        i == s.len() || s[i] == 47u8,
    ensures
        first_sep(s) == i,
    decreases s.len(),
{
    if s.len() > 0 && i > 0 {
        let t = s.drop_first();
        assert forall|x: int| 0 <= x < i - 1 implies #[trigger] t[x] != 47u8 by {
            assert(t[x] == s[x + 1]);
        }
        if i < s.len() {
            assert(t[i - 1] == s[i]);
        }
        lemma_first_sep_at(t, i - 1);
    }
}

/// Appends the key tokens of the part `s[a..b]` to `out`.
fn push_part_key(s: &[u8], a: usize, b: usize, out: &mut Vec<u32>)
    requires
        a <= b <= s@.len(),
    ensures
        final(out)@ == old(out)@ + part_key(s@.subrange(a as int, b as int)),
{
    let ghost p = s@.subrange(a as int, b as int);
    let len = b - a;
    if len == 0 {
        assert(part_key(p) =~= Seq::<u32>::empty());
        assert(out@ =~= old(out)@ + part_key(p));
        return;
    }
    if len == 1 && s[a] == 46u8 {
        assert(p =~= dot());
        assert(out@ =~= old(out)@ + part_key(p));
        return;
    }
    if len == 2 && s[a] == 46u8 && s[a + 1] == 46u8 {
        assert(p =~= dot_dot());
        out.push(3);
        out.push(0);
        assert(out@ =~= old(out)@ + part_key(p));
        return;
    }
    proof {
        if p == dot() {
            assert(p[0] == s@[a as int]);
        }
        if p == dot_dot() {
            assert(p[0] == s@[a as int] && p[1] == s@[a + 1]);
        }
    }
    let ghost start = out@;
    out.push(4);
    let mut x = a;
    while x < b
        invariant
            a <= x <= b,
            b <= s@.len(),
            p == s@.subrange(a as int, b as int),
            out@ == start + seq![4u32] + s@.subrange(a as int, x as int).map_values(
                |c: u8| (c + 5) as u32,
            ),
        decreases b - x,
    {
        let c = s[x];
        out.push(c as u32 + 5);
        x = x + 1;
        assert(s@.subrange(a as int, x as int).map_values(|c: u8| (c + 5) as u32) =~= s@.subrange(
            a as int,
            x - 1,
        ).map_values(|c: u8| (c + 5) as u32).push((c + 5) as u32));
    }
    out.push(0);
    assert(out@ =~= start + part_key(p));
}

/// The sort key of the path given by its bytes.
pub fn path_key_of(s: &[u8]) -> (key: Vec<u32>)
    ensures
        key@ == path_key(s@),
{
    let mut out: Vec<u32> = Vec::new();
    let n = s.len();
    if n > 0 && s[0] == 47u8 {
        out.push(1);
        out.push(0);
    } else if n > 0 && s[0] == 46u8 && (n == 1 || s[1] == 47u8) {
        out.push(2);
        out.push(0);
    }
    let ghost head = out@;
    assert(head + parts_key(s@) == path_key(s@));
    let mut start: usize = 0;
    let mut x: usize = 0;
    assert(s@.subrange(0, n as int) =~= s@);
    while x < n
        invariant
            n == s@.len(),
            start <= x <= n,
            forall|y: int| start <= y < x ==> #[trigger] s@[y] != 47u8,
            head + parts_key(s@) == out@ + parts_key(s@.subrange(start as int, n as int)),
        decreases n - x,
    {
        if s[x] == 47u8 {
            let ghost rest = s@.subrange(start as int, n as int);
            proof {
                assert forall|y: int| 0 <= y < x - start implies #[trigger] rest[y] != 47u8 by {
                    assert(rest[y] == s@[start + y]);
                }
                assert(rest[x - start] == s@[x as int]);
                lemma_first_sep_at(rest, x - start);
                assert(rest.subrange(0, x - start) =~= s@.subrange(start as int, x as int));
                assert(rest.subrange(x - start + 1, rest.len() as int) =~= s@.subrange(
                    x + 1,
                    n as int,
                ));
            }
            push_part_key(s, start, x, &mut out);
            start = x + 1;
        }
        x = x + 1;
    }
    let ghost rest = s@.subrange(start as int, n as int);
    proof {
        assert forall|y: int| 0 <= y < rest.len() implies #[trigger] rest[y] != 47u8 by {
            assert(rest[y] == s@[start + y]);
        }
        lemma_first_sep_at(rest, rest.len() as int);
        assert(s@.subrange(start as int, n as int) =~= rest);
    }
    push_part_key(s, start, n, &mut out);
    out
}

/// What `first_sep` finds: no `/` before it, and a `/` at it unless it is the end.
proof fn lemma_first_sep_props(s: Seq<u8>)
    ensures
        0 <= first_sep(s) <= s.len(),
        forall|x: int| 0 <= x < first_sep(s) ==> #[trigger] s[x] != 47u8,
        first_sep(s) < s.len() ==> s[first_sep(s)] == 47u8,
    decreases s.len(),
{
    if s.len() > 0 && s[0] != 47u8 {
        let t = s.drop_first();
        lemma_first_sep_props(t);
        assert forall|x: int| 0 <= x < first_sep(s) implies #[trigger] s[x] != 47u8 by {
            if x > 0 {
                assert(s[x] == t[x - 1]);
            }
        }
        if first_sep(s) < s.len() {
            assert(s[first_sep(s)] == t[first_sep(t)]);
        }
    }
}

/// A common beginning does not change which key comes first.
proof fn lemma_key_lt_common_prefix(a: Seq<u32>, x: Seq<u32>, y: Seq<u32>)
    ensures
        key_lt(a + x, a + y) == key_lt(x, y),
    decreases a.len(),
{
    if a.len() > 0 {
        assert((a + x).drop_first() =~= a.drop_first() + x);
        assert((a + y).drop_first() =~= a.drop_first() + y);
        lemma_key_lt_common_prefix(a.drop_first(), x, y);
    } else {
        assert(a + x =~= x);
        assert(a + y =~= y);
    }
}

/// The parts of a path after a common directory prefix compare as the last
/// parts do, when those hold no `/`.
proof fn lemma_parts_key_after_dir(dir: Seq<u8>, n1: Seq<u8>, n2: Seq<u8>)
    requires
        is_dir_prefix(dir),
        forall|i: int| 0 <= i < n1.len() ==> #[trigger] n1[i] != 47u8,
        forall|i: int| 0 <= i < n2.len() ==> #[trigger] n2[i] != 47u8,
    ensures
        key_lt(parts_key(dir + n1), parts_key(dir + n2)) == key_lt(part_key(n1), part_key(n2)),
    decreases dir.len(),
{
    if dir.len() == 0 {
        assert(dir + n1 =~= n1);
        assert(dir + n2 =~= n2);
        lemma_first_sep_at(n1, n1.len() as int);
        lemma_first_sep_at(n2, n2.len() as int);
    } else {
        lemma_first_sep_props(dir);
        let f = first_sep(dir);
        if f == dir.len() {
            assert(dir[dir.len() - 1] == dir.last());
        }
        assert(f < dir.len());
        let s1 = dir + n1;
        let s2 = dir + n2;
        assert forall|x: int| 0 <= x < f implies #[trigger] s1[x] != 47u8 by {
            assert(s1[x] == dir[x]);
        }
        assert forall|x: int| 0 <= x < f implies #[trigger] s2[x] != 47u8 by {
            assert(s2[x] == dir[x]);
        }
        assert(s1[f] == dir[f] && s2[f] == dir[f]);
        lemma_first_sep_at(s1, f);
        lemma_first_sep_at(s2, f);
        let rest = dir.subrange(f + 1, dir.len() as int);
        assert(s1.subrange(0, f) =~= dir.subrange(0, f));
        assert(s2.subrange(0, f) =~= dir.subrange(0, f));
        assert(s1.subrange(f + 1, s1.len() as int) =~= rest + n1);
        assert(s2.subrange(f + 1, s2.len() as int) =~= rest + n2);
        if rest.len() > 0 {
            assert(rest.last() == dir.last());
        }
        lemma_parts_key_after_dir(rest, n1, n2);
        lemma_key_lt_common_prefix(part_key(dir.subrange(0, f)), parts_key(rest + n1), parts_key(rest + n2));
    }
}

/// Law: two paths in the same directory whose file names agree up to a
/// first differing byte are ordered by that byte, as an unsigned value
/// (as `std::path::Path` orders names byte by byte).
pub proof fn lemma_path_order_by_first_differing_byte(
    dir: Seq<u8>,
    u: Seq<u8>,
    x: u8,
    s1: Seq<u8>,
    y: u8,
    s2: Seq<u8>,
)
    requires
        is_dir_prefix(dir),
        is_plain_name(u + seq![x] + s1),
        is_plain_name(u + seq![y] + s2),
        x < y,
    ensures
        key_lt(path_key(dir + (u + seq![x] + s1)), path_key(dir + (u + seq![y] + s2))),
{
    let n1 = u + seq![x] + s1;
    let n2 = u + seq![y] + s2;
    let p1 = dir + n1;
    let p2 = dir + n2;
    lemma_parts_key_after_dir(dir, n1, n2);
    // the file names are ordinary names, compared by their bytes
    let m = |b: u8| (b + 5) as u32;
    let a = seq![4u32] + u.map_values(m);
    assert(part_key(n1) =~= a + (seq![m(x)] + s1.map_values(m) + seq![0u32]));
    assert(part_key(n2) =~= a + (seq![m(y)] + s2.map_values(m) + seq![0u32]));
    lemma_key_lt_common_prefix(a, seq![m(x)] + s1.map_values(m) + seq![0u32], seq![m(y)] + s2.map_values(m) + seq![0u32]);
    // the root or current-directory mark is the same for both paths
    let h1 = if p1.len() > 0 && p1[0] == 47u8 {
        seq![1u32, 0u32]
    } else if p1.len() > 0 && p1[0] == 46u8 && (p1.len() == 1 || p1[1] == 47u8) {
        seq![2u32, 0u32]
    } else {
        Seq::<u32>::empty()
    };
    let h2 = if p2.len() > 0 && p2[0] == 47u8 {
        seq![1u32, 0u32]
    } else if p2.len() > 0 && p2[0] == 46u8 && (p2.len() == 1 || p2[1] == 47u8) {
        seq![2u32, 0u32]
    } else {
        Seq::<u32>::empty()
    };
    if dir.len() == 0 {
        assert(p1 =~= n1);
        assert(p2 =~= n2);
        assert(n1[0] != 47u8 && n2[0] != 47u8);
        if n1.len() == 1 {
            assert(n1[0] != 46u8 || n1 =~= dot());
        } else {
            assert(n1[1] != 47u8);
        }
        if n2.len() == 1 {
            assert(n2[0] != 46u8 || n2 =~= dot());
        } else {
            assert(n2[1] != 47u8);
        }
    } else {
        assert(p1[0] == dir[0] && p2[0] == dir[0]);
        if dir.len() >= 2 {
            assert(p1[1] == dir[1] && p2[1] == dir[1]);
        } else {
            assert(dir[0] == dir.last());
        }
    }
    assert(h1 == h2);
    assert(path_key(p1) == h1 + parts_key(p1));
    assert(path_key(p2) == h1 + parts_key(p2));
    lemma_key_lt_common_prefix(h1, parts_key(p1), parts_key(p2));
}

} // verus!
