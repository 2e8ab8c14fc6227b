use vstd::prelude::*;

verus! {

/// True when `s` begins with `p`.
pub open spec fn seq_starts_with(s: Seq<char>, p: Seq<char>) -> bool {
    p.len() <= s.len() && forall|i: int| 0 <= i < p.len() ==> s[i] == #[trigger] p[i]
}

/// True when `s` ends with `p`.
pub open spec fn seq_ends_with(s: Seq<char>, p: Seq<char>) -> bool {
    p.len() <= s.len() && forall|i: int| 0 <= i < p.len() ==> s[s.len() - p.len() + i] == #[trigger] p[i]
}

/// True when `n` occurs in `h` starting at position `at`.
pub open spec fn matches_at(h: Seq<char>, n: Seq<char>, at: int) -> bool {
    0 <= at && at + n.len() <= h.len() && forall|j: int| 0 <= j < n.len() ==> h[at + j] == #[trigger] n[j]
}

/// True when `n` occurs somewhere in `h`.
pub open spec fn seq_contains(h: Seq<char>, n: Seq<char>) -> bool {
    exists|at: int| matches_at(h, n, at)
}

/// A path with every trailing forward slash removed.
pub open spec fn strip_trailing_slashes(s: Seq<char>) -> Seq<char>
    decreases s.len(),
{
    if s.len() > 0 && s.last() == '/' {
        strip_trailing_slashes(s.drop_last())
    } else {
        s
    }
}

/// The text after the last forward slash (the whole text when it holds no
/// slash).
pub open spec fn last_component_of(s: Seq<char>) -> Seq<char>
    decreases s.len(),
{
    if s.len() == 0 {
        s
    } else if s.last() == '/' {
        Seq::empty()
    } else {
        last_component_of(s.drop_last()).push(s.last())
    }
}

/// The final file-name component of a path, as a filesystem reads it:
/// trailing slashes are ignored, the last remaining component is taken,
/// and a component that is `.` or `..` names no file — the result is then
/// empty.
pub open spec fn file_name_of(s: Seq<char>) -> Seq<char> {
    let t = last_component_of(strip_trailing_slashes(s));
    if t == "."@ || t == ".."@ {
        Seq::empty()
    } else {
        t
    }
}

/// Character-for-character equality of two string slices.
pub fn str_eq(a: &str, b: &str) -> (r: bool)
    ensures
        r == (a@ == b@),
{
    let na = a.unicode_len();
    let nb = b.unicode_len();
    if na != nb {
        return false;
    }
    let mut i: usize = 0;
    while i < na
        invariant
            i <= na,
            na == a@.len(),
            na == b@.len(),
            forall|j: int| 0 <= j < i ==> a@[j] == #[trigger] b@[j],
        decreases na - i,
    {
        if a.get_char(i) != b.get_char(i) {
            return false;
        }
        i += 1;
    }
    proof {
        assert(a@ =~= b@);
    }
    true
}

/// Whether `s` starts with the prefix `p`.
pub fn str_starts_with(s: &str, p: &str) -> (r: bool)
    ensures
        r == seq_starts_with(s@, p@),
{
    let ns = s.unicode_len();
    let np = p.unicode_len();
    if np > ns {
        return false;
    }
    let mut i: usize = 0;
    while i < np
        invariant
            i <= np,
            np <= ns,
            ns == s@.len(),
            np == p@.len(),
            forall|j: int| 0 <= j < i ==> s@[j] == #[trigger] p@[j],
        decreases np - i,
    {
        if s.get_char(i) != p.get_char(i) {
            return false;
        }
        i += 1;
    }
    true
}

/// Whether `s` ends with the suffix `p`.
pub fn str_ends_with(s: &str, p: &str) -> (r: bool)
    ensures
        r == seq_ends_with(s@, p@),
{
    let ns = s.unicode_len();
    let np = p.unicode_len();
    if np > ns {
        return false;
    }
    let mut i: usize = 0;
    while i < np
        invariant
            i <= np,
            np <= ns,
            ns == s@.len(),
            np == p@.len(),
            forall|j: int| 0 <= j < i ==> s@[ns - np + j] == #[trigger] p@[j],
        decreases np - i,
    {
        if s.get_char(ns - np + i) != p.get_char(i) {
            return false;
        }
        i += 1;
    }
    true
}

/// Whether `n` occurs in `h` starting at `at`.
pub fn str_matches_at(h: &str, n: &str, at: usize) -> (r: bool)
    requires
        at + n@.len() <= h@.len(),
    ensures
        r == matches_at(h@, n@, at as int),
{
    let nh = h.unicode_len();
    let nn = n.unicode_len();
    let mut j: usize = 0;
    while j < nn
        invariant
            j <= nn,
            nn == n@.len(),
            nh == h@.len(),
            at + nn <= nh,
            forall|t: int| 0 <= t < j ==> h@[at + t] == #[trigger] n@[t],
        decreases nn - j,
    {
        if h.get_char(at + j) != n.get_char(j) {
            return false;
        }
        j += 1;
    }
    true
}

/// Whether `n` occurs somewhere in `h`.
pub fn str_contains(h: &str, n: &str) -> (r: bool)
    ensures
        r == seq_contains(h@, n@),
{
    let nh = h.unicode_len();
    let nn = n.unicode_len();
    if nn > nh {
        return false;
    }
    let mut at: usize = 0;
    while at <= nh - nn
        invariant
            nn <= nh,
            nh == h@.len(),
            nn == n@.len(),
            at <= nh - nn + 1,
            forall|a: int| 0 <= a < at ==> !matches_at(h@, n@, a),
        decreases nh - nn - at + 1,
    {
        if str_matches_at(h, n, at) {
            return true;
        }
        at += 1;
    }
    false
}

/// The final file-name component of a path: trailing slashes are ignored,
/// and a last component of `.` or `..` yields the empty string.
pub fn file_name(s: &str) -> (r: &str)
    ensures
        r@ == file_name_of(s@),
{
    let n = s.unicode_len();
    let mut end: usize = n;
    proof {
        assert(s@.take(n as int) =~= s@);
    }
    while end > 0 && s.get_char(end - 1) == '/'
        invariant
            end <= n,
            n == s@.len(),
            strip_trailing_slashes(s@) == strip_trailing_slashes(s@.take(end as int)),
        decreases end,
    {
        proof {
            assert(s@.take(end as int).last() == s@[end - 1]);
            assert(s@.take(end as int).drop_last() =~= s@.take(end - 1));
        }
        end -= 1;
    }
    proof {
        assert(strip_trailing_slashes(s@.take(end as int)) == s@.take(end as int));
    }
    let mut start: usize = 0;
    let mut i: usize = 0;
    while i < end
        invariant
            i <= end,
            end <= n,
            n == s@.len(),
            start <= i,
            last_component_of(s@.subrange(0, i as int)) == s@.subrange(start as int, i as int),
        decreases end - i,
    {
        let c = s.get_char(i);
        proof {
            assert(s@.subrange(0, i + 1).drop_last() =~= s@.subrange(0, i as int));
            assert(s@.subrange(0, i + 1).last() == s@[i as int]);
        }
        if c == '/' {
            start = i + 1;
            proof {
                assert(s@.subrange(start as int, i + 1) =~= Seq::<char>::empty());
            }
        } else {
            proof {
                assert(s@.subrange(start as int, i + 1) =~= s@.subrange(
                    start as int,
                    i as int,
                ).push(s@[i as int]));
            }
        }
        i += 1;
    }
    proof {
        assert(s@.subrange(0, end as int) =~= s@.take(end as int));
    }
    let cand = s.substring_char(start, end);
    proof {
        reveal_strlit(".");
        reveal_strlit("..");
        reveal_strlit("");
    }
    if str_eq(cand, ".") || str_eq(cand, "..") {
        let none: &str = "";
        proof {
            assert(none@ =~= Seq::<char>::empty());
        }
        none
    } else {
        cand
    }
}

} // verus!
