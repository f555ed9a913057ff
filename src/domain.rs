use vstd::prelude::*;

use crate::text::{chars_of, is_blank};

verus! {

/// The longest host name that the block list accepts.
pub const MAX_DOMAIN_LEN: usize = 253;

/// `s` without its trailing label separators.
pub open spec fn strip_dots(s: Seq<char>) -> Seq<char>
    decreases s.len(),
{
    if s.len() > 0 && s.last() == '.' {
        strip_dots(s.drop_last())
    } else {
        s
    }
}

/// A character's code point after ASCII lower-casing.
pub open spec fn fold(c: char) -> u32 {
    if 'A' <= c && c <= 'Z' {
        (c as u32 + 32) as u32
    } else {
        c as u32
    }
}

/// Equal up to ASCII case.
pub open spec fn eq_ignore_case(a: Seq<char>, b: Seq<char>) -> bool {
    a.len() == b.len() && forall|i: int| 0 <= i < a.len() ==> fold(#[trigger] a[i]) == fold(b[i])
}

/// Ends with `suffix`, up to ASCII case.
pub open spec fn ends_with_ignore_case(a: Seq<char>, suffix: Seq<char>) -> bool {
    a.len() >= suffix.len() && eq_ignore_case(a.subrange(a.len() - suffix.len(), a.len() as int), suffix)
}

/// A host name that names this machine: a single label, `localhost`,
/// `localhost.localdomain`, or a name under `.localhost`, ignoring trailing dots and ASCII case.
pub open spec fn is_local(s: Seq<char>) -> bool {
    let t = strip_dots(s);
    ||| !t.contains('.')
    ||| eq_ignore_case(t, "localhost"@)
    ||| eq_ignore_case(t, "localhost.localdomain"@)
    ||| ends_with_ignore_case(t, ".localhost"@)
}

/// A name that may stand in a hosts record: not empty, without blanks or line breaks.
pub open spec fn is_token(s: Seq<char>) -> bool {
    s.len() > 0 && forall|i: int| 0 <= i < s.len() ==> !is_blank(#[trigger] s[i]) && s[i] != '\n'
}

/// A name that the block list accepts from a user.
pub open spec fn is_blockable(s: Seq<char>) -> bool {
    is_token(s) && s.len() <= MAX_DOMAIN_LEN && !is_local(s)
}

fn fold_char(c: char) -> (r: u32)
    ensures
        r == fold(c),
{
    if 'A' <= c && c <= 'Z' {
        c as u32 + 32
    } else {
        c as u32
    }
}

/// Whether `v[lo..hi]` equals `lit` up to ASCII case.
fn range_eq_ignore_case(v: &Vec<char>, lo: usize, hi: usize, lit: &Vec<char>) -> (r: bool)
    requires
        lo <= hi <= v@.len(),
    ensures
        r == eq_ignore_case(v@.subrange(lo as int, hi as int), lit@),
{
    if hi - lo != lit.len() {
        return false;
    }
    let mut i: usize = 0;
    while i < lit.len()
        invariant
            hi - lo == lit@.len(),
            lo <= hi <= v@.len(),
            i <= lit@.len(),
            forall|k: int| 0 <= k < i ==> fold(#[trigger] v@[lo + k]) == fold(lit@[k]),
        decreases lit@.len() - i,
    {
        if fold_char(v[lo + i]) != fold_char(lit[i]) {
            assert(v@.subrange(lo as int, hi as int)[i as int] == v@[lo + i]);
            return false;
        }
        i = i + 1;
    }
    assert forall|k: int| 0 <= k < lit@.len() implies fold(
        #[trigger] v@.subrange(lo as int, hi as int)[k],
    ) == fold(lit@[k]) by {
        assert(v@.subrange(lo as int, hi as int)[k] == v@[lo + k]);
    }
    true
}

/// Whether the host name `v[lo..hi]` names this machine.
pub(crate) fn is_local_range(v: &Vec<char>, lo: usize, hi: usize) -> (r: bool)
    requires
        lo <= hi <= v@.len(),
    ensures
        r == is_local(v@.subrange(lo as int, hi as int)),
{
    let mut end: usize = hi;
    while end > lo && v[end - 1] == '.'
        invariant
            lo <= end <= hi <= v@.len(),
            strip_dots(v@.subrange(lo as int, hi as int)) == strip_dots(v@.subrange(lo as int, end as int)),
        decreases end - lo,
    {
        assert(v@.subrange(lo as int, end as int).drop_last() =~= v@.subrange(lo as int, end - 1));
        end = end - 1;
    }
    let ghost t = v@.subrange(lo as int, end as int);
    assert(strip_dots(t) == t);
    let mut i: usize = lo;
    while i < end && v[i] != '.'
        invariant
            lo <= i <= end <= v@.len(),
            forall|k: int| lo <= k < i ==> v@[k] != '.',
        decreases end - i,
    {
        i = i + 1;
    }
    if i == end {
        assert(!t.contains('.')) by {
            assert forall|k: int| 0 <= k < t.len() implies t[k] != '.' by {
                assert(t[k] == v@[lo + k]);
            }
        }
        return true;
    }
    assert(t[(i - lo) as int] == v@[i as int]);
    let name = chars_of("localhost");
    let long_name = chars_of("localhost.localdomain");
    let suffix = chars_of(".localhost");
    if range_eq_ignore_case(v, lo, end, &name) || range_eq_ignore_case(v, lo, end, &long_name) {
        return true;
    }
    if end - lo < suffix.len() {
        return false;
    }
    assert(t.subrange(t.len() - suffix@.len(), t.len() as int) =~= v@.subrange(
        end - suffix@.len(),
        end as int,
    ));
    range_eq_ignore_case(v, end - suffix.len(), end, &suffix)
}

/// Whether a host name names this machine and so is never blocked: a name of a single
/// label, `localhost`, `localhost.localdomain`, or any name under `.localhost`,
/// ignoring trailing dots and ASCII case.
pub fn is_local_domain(hostname: &str) -> (r: bool)
    ensures
        r == is_local(hostname@),
{
    let v = chars_of(hostname);
    assert(v@.subrange(0, v@.len() as int) =~= v@);
    is_local_range(&v, 0, v.len())
}

/// Whether `v[lo..hi]` is a single token: not empty, without blanks or line breaks.
pub(crate) fn is_token_range(v: &Vec<char>, lo: usize, hi: usize) -> (r: bool)
    requires
        lo <= hi <= v@.len(),
    ensures
        r == is_token(v@.subrange(lo as int, hi as int)),
{
    if lo == hi {
        return false;
    }
    let ghost t = v@.subrange(lo as int, hi as int);
    let mut i: usize = lo;
    while i < hi
        invariant
            lo <= i <= hi <= v@.len(),
            t == v@.subrange(lo as int, hi as int),
            forall|k: int| lo <= k < i ==> !is_blank(#[trigger] v@[k]) && v@[k] != '\n',
        decreases hi - i,
    {
        let c = v[i];
        if c == ' ' || c == '\t' || c == '\r' || c == '\n' {
            assert(t[(i - lo) as int] == v@[i as int]);
            return false;
        }
        i = i + 1;
    }
    assert forall|k: int| 0 <= k < t.len() implies !is_blank(#[trigger] t[k]) && t[k] != '\n' by {
        assert(t[k] == v@[lo + k]);
    }
    true
}

/// Whether a user may add this host name to the block list: one token of at most
/// `MAX_DOMAIN_LEN` characters that does not name this machine.
pub fn is_blockable_domain(hostname: &str) -> (r: bool)
    ensures
        r == is_blockable(hostname@),
{
    let v = chars_of(hostname);
    assert(v@.subrange(0, v@.len() as int) =~= v@);
    is_token_range(&v, 0, v.len()) && v.len() <= MAX_DOMAIN_LEN && !is_local_range(&v, 0, v.len())
}

} // verus!
