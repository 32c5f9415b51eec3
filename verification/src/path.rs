//! File names and extensions of Unix paths, read from the path's bytes.
//!
//! A path is split at `/`; empty components and `.` components are skipped
//! (`a//b/./` names `b`). The file name is the last remaining component unless
//! that is `..`. The extension is what follows the last `.` of the file name,
//! provided that dot is not its first byte.
use vstd::prelude::*;

verus! {

/// Index of the last occurrence of `c` in `s`, or -1.
pub open spec fn last_index_of(s: Seq<u8>, c: u8) -> int
    decreases s.len(),
{
    if s.len() == 0 {
        -1
    } else if s.last() == c {
        s.len() - 1
    } else {
        last_index_of(s.drop_last(), c)
    }
}

/// The bytes `.`.
pub open spec fn dot() -> Seq<u8> {
    seq![46u8]
}

/// The bytes `..`.
pub open spec fn dot_dot() -> Seq<u8> {
    seq![46u8, 46u8]
}

/// The last component of the path that is neither empty nor `.`, if any.
pub open spec fn last_component(s: Seq<u8>) -> Option<Seq<u8>>
    decreases s.len(),
{
    let i = last_index_of(s, 47u8);
    let part = s.subrange(i + 1, s.len() as int);
    if part.len() != 0 && part != dot() {
        Some(part)
    } else if i < 0 {
        None
    } else {
        proof {
            lemma_last_index_bound(s, 47u8);
        }
        last_component(s.subrange(0, i))
    }
}

pub proof fn lemma_last_index_bound(s: Seq<u8>, c: u8)
    ensures
        -1 <= last_index_of(s, c) < s.len(),
        last_index_of(s, c) >= 0 ==> s[last_index_of(s, c)] == c,
    decreases s.len(),
{
    if s.len() > 0 && s.last() != c {
        lemma_last_index_bound(s.drop_last(), c);
    }
}

/// The file name of a path: its last component, unless that is `..`.
pub open spec fn file_name(s: Seq<u8>) -> Option<Seq<u8>> {
    match last_component(s) {
        Some(part) => if part == dot_dot() {
            None
        } else {
            Some(part)
        },
        None => None,
    }
}

/// What follows the last `.` of a file name, unless the name has no `.` or
/// starts with its only one.
pub open spec fn name_extension(name: Seq<u8>) -> Option<Seq<u8>> {
    let d = last_index_of(name, 46u8);
    if d <= 0 {
        None
    } else {
        Some(name.subrange(d + 1, name.len() as int))
    }
}

/// The extension of a path's file name, if it has one.
pub open spec fn path_extension(s: Seq<u8>) -> Option<Seq<u8>> {
    match file_name(s) {
        Some(name) => name_extension(name),
        None => None,
    }
}

pub proof fn lemma_last_index(s: Seq<u8>, c: u8, i: int)
    requires
        0 <= i <= s.len(),
        forall|x: int| i <= x < s.len() ==> #[trigger] s[x] != c,
        i == 0 || s[i - 1] == c,
    ensures
        last_index_of(s, c) == i - 1,
    decreases s.len(),
{
    if s.len() > i {
        let t = s.drop_last();
        assert forall|x: int| i <= x < t.len() implies #[trigger] t[x] != c by {
            assert(t[x] == s[x]);
        }
        lemma_last_index(t, c, i);
    } else if s.len() > 0 {
        assert(s.last() == s[i - 1]);
    }
}

/// `dir` names a directory prefix: empty, or ending with `/`.
pub open spec fn is_dir_prefix(dir: Seq<u8>) -> bool {
    dir.len() == 0 || dir.last() == 47u8
}

/// `name` is a plain file name: non-empty, without `/`, and neither `.` nor `..`.
pub open spec fn is_plain_name(name: Seq<u8>) -> bool {
    &&& name.len() > 0
    &&& forall|i: int| 0 <= i < name.len() ==> #[trigger] name[i] != 47u8
    &&& name != dot()
    &&& name != dot_dot()
}

/// Law: the file name of a path that ends in a plain name is that name,
/// whatever directories come before it.
pub proof fn lemma_file_name_of_plain_name(dir: Seq<u8>, name: Seq<u8>)
    requires
        is_dir_prefix(dir),
        is_plain_name(name),
    ensures
        file_name(dir + name) == Some(name),
{
    let s = dir + name;
    assert forall|x: int| dir.len() <= x < s.len() implies #[trigger] s[x] != 47u8 by {
        assert(s[x] == name[x - dir.len()]);
    }
    if dir.len() > 0 {
        assert(s[dir.len() - 1] == dir.last());
    }
    lemma_last_index(s, 47u8, dir.len() as int);
    assert(s.subrange(dir.len() as int, s.len() as int) =~= name);
}

/// Law: the extension of a path ending in a plain name is what follows the
/// name's last `.`, when that dot is not the name's first byte, and there is
/// none when the name has no such dot; directories before the name do not
/// matter.
pub proof fn lemma_extension_after_last_dot(dir: Seq<u8>, name: Seq<u8>)
    requires
        is_dir_prefix(dir),
        is_plain_name(name),
    ensures
        path_extension(dir + name) == path_extension(name),
        forall|k: int|
            0 < k < name.len() && name[k] == 46u8 && (forall|j: int| k < j < name.len() ==> #[trigger] name[j]
                != 46u8) ==> path_extension(dir + name) == Some(#[trigger] name.subrange(k + 1, name.len() as int)),
        (forall|j: int| 0 < j < name.len() ==> #[trigger] name[j] != 46u8) ==> path_extension(dir + name)
            is None,
{
    lemma_file_name_of_plain_name(dir, name);
    lemma_file_name_of_plain_name(Seq::empty(), name);
    assert(Seq::<u8>::empty() + name =~= name);
    assert forall|k: int|
        0 < k < name.len() && name[k] == 46u8 && (forall|j: int| k < j < name.len() ==> #[trigger] name[j]
            != 46u8) implies path_extension(dir + name) == Some(#[trigger] name.subrange(k + 1, name.len() as int)) by {
        lemma_last_index(name, 46u8, k + 1);
    }
    if forall|j: int| 0 < j < name.len() ==> #[trigger] name[j] != 46u8 {
        lemma_last_index_bound(name, 46u8);
        let d = last_index_of(name, 46u8);
        if d > 0 {
            assert(name[d] == 46u8);
        }
    }
}

/// `q` is `p` with the case of some ASCII letters changed.
pub open spec fn case_variant(p: Seq<u8>, q: Seq<u8>) -> bool {
    &&& p.len() == q.len()
    &&& forall|i: int|
        0 <= i < p.len() ==> #[trigger] q[i] == p[i] || (65 <= p[i] <= 90 && q[i] == p[i] + 32) || (97
            <= p[i] <= 122 && q[i] == p[i] - 32)
}

proof fn lemma_case_variant_subrange(p: Seq<u8>, q: Seq<u8>, a: int, b: int)
    requires
        case_variant(p, q),
        0 <= a <= b <= p.len(),
    ensures
        case_variant(p.subrange(a, b), q.subrange(a, b)),
{
    assert forall|i: int| 0 <= i < b - a implies #[trigger] q.subrange(a, b)[i] == p.subrange(a, b)[i] || (65
        <= p.subrange(a, b)[i] <= 90 && q.subrange(a, b)[i] == p.subrange(a, b)[i] + 32) || (97 <= p.subrange(a, b)[i]
        <= 122 && q.subrange(a, b)[i] == p.subrange(a, b)[i] - 32) by {
        assert(p.subrange(a, b)[i] == p[a + i] && q.subrange(a, b)[i] == q[a + i]);
    }
}

/// A byte that is not an ASCII letter is kept by a case change.
proof fn lemma_case_variant_keeps(p: Seq<u8>, q: Seq<u8>, i: int, c: u8)
    requires
        case_variant(p, q),
        0 <= i < p.len(),
        !(65 <= c <= 90) && !(97 <= c <= 122),
    ensures
        (p[i] == c) <==> (q[i] == c),
{
}

proof fn lemma_case_variant_last_index(p: Seq<u8>, q: Seq<u8>, c: u8)
    requires
        case_variant(p, q),
        !(65 <= c <= 90) && !(97 <= c <= 122),
    ensures
        last_index_of(p, c) == last_index_of(q, c),
    decreases p.len(),
{
    if p.len() > 0 {
        lemma_case_variant_keeps(p, q, p.len() - 1, c);
        lemma_case_variant_subrange(p, q, 0, p.len() - 1);
        assert(p.drop_last() =~= p.subrange(0, p.len() - 1));
        assert(q.drop_last() =~= q.subrange(0, q.len() - 1));
        lemma_case_variant_last_index(p.drop_last(), q.drop_last(), c);
    }
}

/// A case change keeps equality with a sequence that has no letters.
proof fn lemma_case_variant_eq(p: Seq<u8>, q: Seq<u8>, t: Seq<u8>)
    requires
        case_variant(p, q),
        forall|i: int| 0 <= i < t.len() ==> !(65 <= #[trigger] t[i] <= 90) && !(97 <= t[i] <= 122),
    ensures
        (p == t) <==> (q == t),
{
    if p == t {
        assert forall|i: int| 0 <= i < q.len() implies q[i] == t[i] by {
            lemma_case_variant_keeps(p, q, i, t[i]);
        }
        assert(q =~= t);
    }
    if q == t {
        assert forall|i: int| 0 <= i < p.len() implies p[i] == t[i] by {
            lemma_case_variant_keeps(p, q, i, t[i]);
        }
        assert(p =~= t);
    }
}

proof fn lemma_case_variant_last_component(p: Seq<u8>, q: Seq<u8>)
    requires
        case_variant(p, q),
    ensures
        last_component(p) is Some <==> last_component(q) is Some,
        last_component(p) is Some ==> case_variant(last_component(p).unwrap(), last_component(q).unwrap()),
    decreases p.len(),
{
    lemma_case_variant_last_index(p, q, 47u8);
    lemma_last_index_bound(p, 47u8);
    let i = last_index_of(p, 47u8);
    lemma_case_variant_subrange(p, q, i + 1, p.len() as int);
    lemma_case_variant_eq(p.subrange(i + 1, p.len() as int), q.subrange(i + 1, q.len() as int), dot());
    if i >= 0 {
        lemma_case_variant_subrange(p, q, 0, i);
        lemma_case_variant_last_component(p.subrange(0, i), q.subrange(0, i));
    }
}

/// Law: changing the case of ASCII letters in a path changes nothing but
/// the case of its extension: one path has an extension exactly when the
/// other has, and the two extensions differ only in letter case.
pub proof fn lemma_extension_ignores_case_of_path(p: Seq<u8>, q: Seq<u8>)
    requires
        case_variant(p, q),
    ensures
        path_extension(p) is Some <==> path_extension(q) is Some,
        path_extension(p) is Some ==> case_variant(path_extension(p).unwrap(), path_extension(q).unwrap()),
{
    lemma_case_variant_last_component(p, q);
    if last_component(p) is Some {
        let a = last_component(p).unwrap();
        let b = last_component(q).unwrap();
        lemma_case_variant_eq(a, b, dot_dot());
        lemma_case_variant_last_index(a, b, 46u8);
        lemma_last_index_bound(a, 46u8);
        let d = last_index_of(a, 46u8);
        if d > 0 {
            lemma_case_variant_subrange(a, b, d + 1, a.len() as int);
        }
    }
}

/// Index just past the last `c` among `s[lo..hi]`, or `lo` when there is none.
fn scan_back(s: &[u8], lo: usize, hi: usize, c: u8) -> (i: usize)
    requires
        lo <= hi <= s@.len(),
    ensures
        lo <= i <= hi,
        forall|x: int| i <= x < hi ==> #[trigger] s@[x] != c,
        i == lo || s@[i - 1] == c,
{
    let mut i = hi;
    while i > lo && s[i - 1] != c
        invariant
            lo <= i <= hi,
            hi <= s@.len(),
            forall|x: int| i <= x < hi ==> #[trigger] s@[x] != c,
        decreases i,
    {
        i = i - 1;
    }
    i
}

/// Start and end of the file name of `path`, if it has one.
fn file_name_range(path: &[u8]) -> (r: Option<(usize, usize)>)
    ensures
        match r {
            Some((a, b)) => a <= b <= path@.len() && file_name(path@) == Some(path@.subrange(a as int, b as int)),
            None => file_name(path@) is None,
        },
{
    let mut end = path.len();
    assert(path@.subrange(0, end as int) =~= path@);
    loop
        invariant
            end <= path@.len(),
            last_component(path@) == last_component(path@.subrange(0, end as int)),
        decreases end,
    {
        let ghost s = path@.subrange(0, end as int);
        let i = scan_back(path, 0, end, 47u8);
        proof {
            assert forall|x: int| i <= x < s.len() implies #[trigger] s[x] != 47u8 by {
                assert(s[x] == path@[x]);
            }
            if i > 0 {
                assert(s[i - 1] == path@[i - 1]);
            }
            lemma_last_index(s, 47u8, i as int);
            assert(s.subrange(i as int, s.len() as int) =~= path@.subrange(i as int, end as int));
        }
        let len = end - i;
        if len != 0 && !(len == 1 && path[i] == 46u8) {
            proof {
                let part = path@.subrange(i as int, end as int);
                if part == dot() {
                    assert(part[0] == path@[i as int]);
                }
            }
            if len == 2 && path[i] == 46u8 && path[i + 1] == 46u8 {
                proof {
                    assert(path@.subrange(i as int, end as int) =~= dot_dot());
                }
                return None;
            }
            proof {
                let part = path@.subrange(i as int, end as int);
                if part == dot_dot() {
                    assert(part[0] == path@[i as int] && part[1] == path@[i + 1]);
                }
            }
            return Some((i, end));
        }
        proof {
            let part = path@.subrange(i as int, end as int);
            if len == 1 {
                assert(part =~= dot());
            }
        }
        if i == 0 {
            return None;
        }
        proof {
            assert(s.subrange(0, i - 1) =~= path@.subrange(0, i - 1));
        }
        end = i - 1;
    }
}

/// The bytes `s[a..b]` as a vector.
fn copy_range(s: &[u8], a: usize, b: usize) -> (r: Vec<u8>)
    requires
        a <= b <= s@.len(),
    ensures
        r@ == s@.subrange(a as int, b as int),
{
    let mut r: Vec<u8> = Vec::new();
    let mut x = a;
    while x < b
        invariant
            a <= x <= b,
            b <= s@.len(),
            r@ == s@.subrange(a as int, x as int),
        decreases b - x,
    {
        r.push(s[x]);
        x = x + 1;
        assert(r@ =~= s@.subrange(a as int, x as int));
    }
    r
}

/// The extension of the file name of `path` (the bytes after its last `.`),
/// or `None` when the file name is missing, has no `.`, or starts with its
/// only `.`.
pub fn path_extension_of(path: &[u8]) -> (r: Option<Vec<u8>>)
    ensures
        match r {
            Some(e) => path_extension(path@) == Some(e@),
            None => path_extension(path@) is None,
        },
{
    match file_name_range(path) {
        None => None,
        Some((a, b)) => {
            let ghost name = path@.subrange(a as int, b as int);
            let j = scan_back(path, a, b, 46u8);
            proof {
                assert forall|x: int| (j - a) <= x < name.len() implies #[trigger] name[x] != 46u8 by {
                    assert(name[x] == path@[a + x]);
                }
                if j > a {
                    assert(name[j - a - 1] == path@[j - 1]);
                }
                lemma_last_index(name, 46u8, (j - a) as int);
            }
            if j - a <= 1 {
                None
            } else {
                let e = copy_range(path, j, b);
                assert(e@ =~= name.subrange(j - a, name.len() as int));
                Some(e)
            }
        },
    }
}

} // verus!
