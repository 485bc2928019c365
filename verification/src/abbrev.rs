//! Splitting an identifier into a namespace and a local name.
//!
//! The local name is the longest suffix of the identifier that can stand as
//! the local part of an XML tag name: it begins with a name-start character,
//! holds name characters only, and holds no colon.

use vstd::prelude::*;
use vstd::string::StrSliceExecFns;
use crate::chars::{chars_of, is_name_char, is_name_start_char, name_char, name_start_char};

verus! {

/// Whether `c` cannot stand inside a local name.
pub open spec fn breaks_name(c: char) -> bool {
    !name_char(c) || c == ':'
}

/// Whether `c` can begin a local name.
pub open spec fn starts_local(c: char) -> bool {
    name_start_char(c) && c != ':'
}

/// The index of the right-most character among the first `n` of `s` that
/// cannot stand inside a local name, or -1 if there is none.
pub open spec fn last_break(s: Seq<char>, n: int) -> int
    decreases n,
{
    if n <= 0 || n > s.len() {
        -1
    } else if breaks_name(s[n - 1]) {
        n - 1
    } else {
        last_break(s, n - 1)
    }
}

/// The index of the first character of `s` at or after `i` that can begin a
/// local name, or the length of `s` if there is none.
pub open spec fn first_start(s: Seq<char>, i: int) -> int
    decreases s.len() - i,
{
    if i < 0 || i >= s.len() {
        s.len() as int
    } else if starts_local(s[i]) {
        i
    } else {
        first_start(s, i + 1)
    }
}

/// Where the local name of `s` begins: after the right-most character that
/// cannot stand inside a local name, at the first character that can begin
/// one. It is the length of `s` where the local name is empty.
pub open spec fn split_point(s: Seq<char>) -> int {
    let b = last_break(s, s.len() as int);
    if b < 0 {
        s.len() as int
    } else {
        first_start(s, b)
    }
}

/// Whether `s` can stand as the local part of a tag name.
pub open spec fn is_local_name(s: Seq<char>) -> bool {
    &&& s.len() > 0
    &&& starts_local(s[0])
    &&& forall|i: int| 0 <= i < s.len() ==> !breaks_name(#[trigger] s[i])
}

/// Splits an identifier into its namespace and its local name. Together the
/// two parts spell the identifier; the local name may be empty.
pub fn split_iri(iri: &str) -> (r: (&str, &str))
    ensures
        r.0@ == iri@.take(split_point(iri@)),
        r.1@ == iri@.skip(split_point(iri@)),
{
    let cs = chars_of(iri);
    let n: usize = cs.len();
    let mut b: usize = n;
    while b > 0 && is_name_char(cs[b - 1]) && cs[b - 1] != ':'
        invariant
            cs@ == iri@,
            n == cs.len(),
            b <= n,
            last_break(iri@, n as int) == last_break(iri@, b as int),
        decreases b,
    {
        b -= 1;
    }
    if b == 0 {
        proof {
            reveal_strlit("");
            assert(iri@.take(iri@.len() as int) =~= iri@);
            assert(iri@.skip(iri@.len() as int) =~= ""@);
        }
        return (iri, "");
    }
    let mut j: usize = b - 1;
    while j < n && !(is_name_start_char(cs[j]) && cs[j] != ':')
        invariant
            cs@ == iri@,
            n == cs.len(),
            j <= n,
            first_start(iri@, b - 1) == first_start(iri@, j as int),
        decreases n - j,
    {
        j += 1;
    }
    proof {
        assert(iri@.take(j as int) =~= iri@.subrange(0, j as int));
        assert(iri@.skip(j as int) =~= iri@.subrange(j as int, n as int));
    }
    (iri.substring_char(0, j), iri.substring_char(j, n))
}

proof fn lemma_last_break(s: Seq<char>, n: int)
    requires
        0 <= n <= s.len(),
    ensures
        -1 <= last_break(s, n) < n,
        last_break(s, n) >= 0 ==> breaks_name(s[last_break(s, n)]),
        forall|i: int| last_break(s, n) < i < n ==> !breaks_name(#[trigger] s[i]),
    decreases n,
{
    if n > 0 && !breaks_name(s[n - 1]) {
        lemma_last_break(s, n - 1);
    }
}

proof fn lemma_first_start(s: Seq<char>, i: int)
    requires
        0 <= i <= s.len(),
    ensures
        i <= first_start(s, i) <= s.len(),
        first_start(s, i) < s.len() ==> starts_local(s[first_start(s, i)]),
        forall|k: int| i <= k < first_start(s, i) ==> !starts_local(#[trigger] s[k]),
    decreases s.len() - i,
{
    if i < s.len() && !starts_local(s[i]) {
        lemma_first_start(s, i + 1);
    }
}

/// Whether some character of `s` cannot stand inside a local name.
pub open spec fn has_break(s: Seq<char>) -> bool {
    exists|i: int| 0 <= i < s.len() && breaks_name(#[trigger] s[i])
}

/// An identifier made of name characters only, with no colon, is not split:
/// its local name is empty. In any other identifier the local name that
/// `split_point` cuts off is empty or can stand as the local part of a tag
/// name, and it is the longest such suffix: no suffix that begins earlier can.
pub proof fn lemma_split_point_longest_local_name(s: Seq<char>)
    ensures
        0 <= split_point(s) <= s.len(),
        !has_break(s) ==> split_point(s) == s.len(),
        split_point(s) < s.len() ==> is_local_name(s.skip(split_point(s))),
        has_break(s) ==> forall|k: int|
            0 <= k < split_point(s) ==> !is_local_name(#[trigger] s.skip(k)),
{
    let n = s.len() as int;
    let b = last_break(s, n);
    let p = split_point(s);
    lemma_last_break(s, n);
    if b >= 0 {
        lemma_first_start(s, b);
        assert(!starts_local(s[b]));
    }
    if p < n {
        let t = s.skip(p);
        assert forall|i: int| 0 <= i < t.len() implies !breaks_name(#[trigger] t[i]) by {
            assert(t[i] == s[p + i]);
        }
        assert(t[0] == s[p]);
    }
    if has_break(s) {
        assert forall|k: int| 0 <= k < p implies !is_local_name(#[trigger] s.skip(k)) by {
            let t = s.skip(k);
            if k <= b {
                assert(t[b - k] == s[b]);
            } else {
                assert(t[0] == s[k]);
            }
        }
    }
}

} // verus!
