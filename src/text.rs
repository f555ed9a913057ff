use vstd::prelude::*;
use vstd::slice::slice_subrange;
use vstd::std_specs::iter::IteratorSpec;

verus! {

/// Characters that separate the fields of a record.
pub open spec fn is_blank(c: char) -> bool {
    c == ' ' || c == '\t' || c == '\r'
}

/// The pieces of `s` between occurrences of `sep`; there is always at least one.
pub open spec fn split(s: Seq<char>, sep: char) -> Seq<Seq<char>>
    decreases s.len(),
{
    if s.len() == 0 {
        seq![Seq::<char>::empty()]
    } else {
        let r = split(s.drop_last(), sep);
        if s.last() == sep {
            r.push(Seq::<char>::empty())
        } else {
            r.update(r.len() - 1, r.last().push(s.last()))
        }
    }
}

/// The maximal runs of non-blank characters of `s`, in order.
pub open spec fn tokens(s: Seq<char>) -> Seq<Seq<char>>
    decreases s.len(),
{
    if s.len() == 0 {
        Seq::<Seq<char>>::empty()
    } else {
        let r = tokens(s.drop_last());
        let c = s.last();
        if is_blank(c) {
            r
        } else if s.len() > 1 && !is_blank(s[s.len() - 2]) {
            r.update(r.len() - 1, r.last().push(c))
        } else {
            r.push(seq![c])
        }
    }
}

/// `s` without its leading blank characters.
pub open spec fn trim_start(s: Seq<char>) -> Seq<char>
    decreases s.len(),
{
    if s.len() > 0 && is_blank(s[0]) {
        trim_start(s.drop_first())
    } else {
        s
    }
}

/// `s` without its trailing blank characters.
pub open spec fn trim_end(s: Seq<char>) -> Seq<char>
    decreases s.len(),
{
    if s.len() > 0 && is_blank(s.last()) {
        trim_end(s.drop_last())
    } else {
        s
    }
}

/// `s` without blank characters at either end.
pub open spec fn trim(s: Seq<char>) -> Seq<char> {
    trim_end(trim_start(s))
}

/// Strict lexicographic order by code point, the order of `str`'s `Ord`.
pub open spec fn text_lt(a: Seq<char>, b: Seq<char>) -> bool
    decreases a.len(),
{
    if a.len() == 0 {
        b.len() > 0
    } else if b.len() == 0 {
        false
    } else if a[0] != b[0] {
        a[0] < b[0]
    } else {
        text_lt(a.drop_first(), b.drop_first())
    }
}

/// Strictly ascending in `text_lt`, hence free of duplicates.
pub open spec fn strictly_sorted(s: Seq<Seq<char>>) -> bool {
    forall|i: int, j: int| 0 <= i < j < s.len() ==> text_lt(#[trigger] s[i], #[trigger] s[j])
}

/// The views of a sequence of strings.
pub open spec fn views(v: Seq<String>) -> Seq<Seq<char>> {
    v.map_values(|s: String| s@)
}

/// Characters in order, joined by `sep` after each item.
pub open spec fn join_lines(items: Seq<Seq<char>>, sep: char) -> Seq<char>
    decreases items.len(),
{
    if items.len() == 0 {
        Seq::<char>::empty()
    } else {
        join_lines(items.drop_last(), sep) + items.last().push(sep)
    }
}

/// Items separated by `sep`, with no separator after the last.
pub open spec fn join_words(items: Seq<Seq<char>>, sep: char) -> Seq<char>
    decreases items.len(),
{
    if items.len() == 0 {
        Seq::<char>::empty()
    } else if items.len() == 1 {
        items[0]
    } else {
        join_words(items.drop_last(), sep).push(sep) + items.last()
    }
}

pub proof fn lemma_text_lt_irreflexive(a: Seq<char>)
    ensures
        !text_lt(a, a),
    decreases a.len(),
{
    if a.len() > 0 {
        lemma_text_lt_irreflexive(a.drop_first());
    }
}

pub proof fn lemma_text_lt_asymmetric(a: Seq<char>, b: Seq<char>)
    ensures
        text_lt(a, b) ==> !text_lt(b, a),
    decreases a.len(),
{
    if a.len() > 0 && b.len() > 0 && a[0] == b[0] {
        lemma_text_lt_asymmetric(a.drop_first(), b.drop_first());
    }
}

pub proof fn lemma_text_lt_transitive(a: Seq<char>, b: Seq<char>, c: Seq<char>)
    requires
        text_lt(a, b),
        text_lt(b, c),
    ensures
        text_lt(a, c),
    decreases a.len(),
{
    if a.len() > 0 && b.len() > 0 && c.len() > 0 && a[0] == b[0] && b[0] == c[0] {
        lemma_text_lt_transitive(a.drop_first(), b.drop_first(), c.drop_first());
    }
}

pub proof fn lemma_text_lt_total(a: Seq<char>, b: Seq<char>)
    requires
        a != b,
    ensures
        text_lt(a, b) || text_lt(b, a),
    decreases a.len(),
{
    if a.len() > 0 && b.len() > 0 && a[0] == b[0] {
        if a.drop_first() == b.drop_first() {
            assert(a =~= seq![a[0]] + a.drop_first());
            assert(b =~= seq![b[0]] + b.drop_first());
        }
        lemma_text_lt_total(a.drop_first(), b.drop_first());
    } else if a.len() > 0 && b.len() > 0 {
        assert(a[0] < b[0] || b[0] < a[0]);
    } else if a.len() == 0 && b.len() == 0 {
        assert(a =~= b);
    }
}

/// The characters of `s`, in order.
pub(crate) fn chars_of(s: &str) -> (r: Vec<char>)
    ensures
        r@ == s@,
{
    broadcast use vstd::string::group_string_axioms;

    let mut it = s.chars();
    let mut r: Vec<char> = Vec::new();
    loop
        invariant_except_break
            r@ + it.remaining() == s@,
            it.decrease() is Some,
        ensures
            r@ == s@,
        decreases it.decrease()->0,
    {
        match it.next() {
            Some(c) => {
                r.push(c);
                assert(r@ + it.remaining() =~= s@);
            },
            None => {
                assert(r@ + it.remaining() =~= r@);
                break;
            },
        }
    }
    r
}

/// Relies on `String::push`: appends one character.
#[verifier::external_body]
fn push_char(s: &mut String, c: char)
    ensures
        final(s)@ == old(s)@.push(c),
{
    s.push(c)
}

/// A string of exactly these characters.
pub(crate) fn text_of(v: &[char]) -> (r: String)
    ensures
        r@ == v@,
{
    let mut r = String::new();
    let mut i: usize = 0;
    while i < v.len()
        invariant
            i <= v@.len(),
            r@ == v@.subrange(0, i as int),
        decreases v@.len() - i,
    {
        push_char(&mut r, v[i]);
        i = i + 1;
        assert(r@ =~= v@.subrange(0, i as int));
    }
    assert(v@.subrange(0, v@.len() as int) =~= v@);
    r
}

/// Copies the characters `v[lo..hi]` into a string.
pub(crate) fn text_range(v: &Vec<char>, lo: usize, hi: usize) -> (r: String)
    requires
        lo <= hi <= v@.len(),
    ensures
        r@ == v@.subrange(lo as int, hi as int),
{
    text_of(slice_subrange(v.as_slice(), lo, hi))
}

/// Whether `a` comes strictly before `b` by code point.
pub fn text_less(a: &Vec<char>, b: &Vec<char>) -> (r: bool)
    ensures
        r == text_lt(a@, b@),
{
    let mut i: usize = 0;
    assert(a@.subrange(0, a@.len() as int) =~= a@);
    assert(b@.subrange(0, b@.len() as int) =~= b@);
    while i < a.len() && i < b.len() && a[i] == b[i]
        invariant
            i <= a@.len(),
            i <= b@.len(),
            a@.subrange(0, i as int) == b@.subrange(0, i as int),
            text_lt(a@, b@) == text_lt(a@.subrange(i as int, a@.len() as int), b@.subrange(i as int, b@.len() as int)),
        decreases a@.len() - i,
    {
        proof {
            let sa = a@.subrange(i as int, a@.len() as int);
            let sb = b@.subrange(i as int, b@.len() as int);
            assert(sa.drop_first() =~= a@.subrange(i + 1, a@.len() as int));
            assert(sb.drop_first() =~= b@.subrange(i + 1, b@.len() as int));
            assert(a@.subrange(0, i + 1) =~= a@.subrange(0, i as int).push(a@[i as int]));
            assert(b@.subrange(0, i + 1) =~= b@.subrange(0, i as int).push(b@[i as int]));
        }
        i = i + 1;
    }
    let ghost sa = a@.subrange(i as int, a@.len() as int);
    let ghost sb = b@.subrange(i as int, b@.len() as int);
    if i == a.len() {
        i < b.len()
    } else if i == b.len() {
        false
    } else {
        assert(sa[0] == a@[i as int] && sb[0] == b@[i as int]);
        a[i] < b[i]
    }
}

/// The ranges of the pieces of `v[lo..hi]` between occurrences of `sep`.
pub(crate) fn split_ranges(v: &Vec<char>, lo: usize, hi: usize, sep: char) -> (r: Vec<(usize, usize)>)
    requires
        lo <= hi <= v@.len(),
    ensures
        r@.len() >= 1,
        r@.len() == split(v@.subrange(lo as int, hi as int), sep).len(),
        forall|j: int|
            0 <= j < r@.len() ==> lo <= (#[trigger] r@[j]).0 <= r@[j].1 <= hi && v@.subrange(
                r@[j].0 as int,
                r@[j].1 as int,
            ) == split(v@.subrange(lo as int, hi as int), sep)[j],
{
    let mut r: Vec<(usize, usize)> = Vec::new();
    let mut start: usize = lo;
    let mut i: usize = lo;
    assert(v@.subrange(lo as int, lo as int) =~= Seq::<char>::empty());
    while i < hi
        invariant
            lo <= start <= i <= hi <= v@.len(),
            r@.len() + 1 == split(v@.subrange(lo as int, i as int), sep).len(),
            forall|j: int|
                0 <= j < r@.len() ==> lo <= (#[trigger] r@[j]).0 <= r@[j].1 <= hi && v@.subrange(
                    r@[j].0 as int,
                    r@[j].1 as int,
                ) == split(v@.subrange(lo as int, i as int), sep)[j],
            v@.subrange(start as int, i as int) == split(v@.subrange(lo as int, i as int), sep).last(),
        decreases hi - i,
    {
        let ghost prev = split(v@.subrange(lo as int, i as int), sep);
        assert(v@.subrange(lo as int, i + 1).drop_last() =~= v@.subrange(lo as int, i as int));
        if v[i] == sep {
            r.push((start, i));
            start = i + 1;
            assert(v@.subrange(start as int, i + 1) =~= Seq::<char>::empty());
        } else {
            assert(v@.subrange(start as int, i + 1) =~= v@.subrange(start as int, i as int).push(v@[i as int]));
        }
        i = i + 1;
    }
    r.push((start, hi));
    r
}

/// The ranges of the blank-separated tokens of `v[lo..hi]`.
pub(crate) fn token_ranges(v: &Vec<char>, lo: usize, hi: usize) -> (r: Vec<(usize, usize)>)
    requires
        lo <= hi <= v@.len(),
    ensures
        r@.len() == tokens(v@.subrange(lo as int, hi as int)).len(),
        forall|j: int|
            0 <= j < r@.len() ==> lo <= (#[trigger] r@[j]).0 < r@[j].1 <= hi && v@.subrange(
                r@[j].0 as int,
                r@[j].1 as int,
            ) == tokens(v@.subrange(lo as int, hi as int))[j],
{
    let mut r: Vec<(usize, usize)> = Vec::new();
    let mut start: usize = lo;
    let mut in_token = false;
    let mut i: usize = lo;
    assert(v@.subrange(lo as int, lo as int) =~= Seq::<char>::empty());
    while i < hi
        invariant
            lo <= start <= i <= hi <= v@.len(),
            in_token ==> start < i && !is_blank(v@[i - 1]) && r@.len() + 1 == tokens(
                v@.subrange(lo as int, i as int),
            ).len() && v@.subrange(start as int, i as int) == tokens(
                v@.subrange(lo as int, i as int),
            ).last(),
            !in_token ==> (i == lo || is_blank(v@[i - 1])) && r@.len() == tokens(
                v@.subrange(lo as int, i as int),
            ).len(),
            forall|j: int|
                0 <= j < r@.len() ==> lo <= (#[trigger] r@[j]).0 < r@[j].1 <= hi && v@.subrange(
                    r@[j].0 as int,
                    r@[j].1 as int,
                ) == tokens(v@.subrange(lo as int, i as int))[j],
        decreases hi - i,
    {
        let ghost cur = v@.subrange(lo as int, i + 1);
        assert(cur.drop_last() =~= v@.subrange(lo as int, i as int));
        assert(cur.last() == v@[i as int]);
        let c = v[i];
        if c == ' ' || c == '\t' || c == '\r' {
            if in_token {
                r.push((start, i));
                in_token = false;
            }
        } else {
            if in_token {
                assert(cur[cur.len() - 2] == v@[i - 1]);
                assert(v@.subrange(start as int, i + 1) =~= v@.subrange(start as int, i as int).push(c));
            } else {
                if i > lo {
                    assert(cur[cur.len() - 2] == v@[i - 1]);
                }
                start = i;
                in_token = true;
                assert(v@.subrange(start as int, i + 1) =~= seq![c]);
            }
        }
        i = i + 1;
    }
    if in_token {
        r.push((start, hi));
    }
    r
}

/// The range of `v[lo..hi]` left after trimming blank characters at both ends.
pub(crate) fn trim_range(v: &Vec<char>, lo: usize, hi: usize) -> (r: (usize, usize))
    requires
        lo <= hi <= v@.len(),
    ensures
        lo <= r.0 <= r.1 <= hi,
        v@.subrange(r.0 as int, r.1 as int) == trim(v@.subrange(lo as int, hi as int)),
{
    let mut a: usize = lo;
    while a < hi && (v[a] == ' ' || v[a] == '\t' || v[a] == '\r')
        invariant
            lo <= a <= hi <= v@.len(),
            trim_start(v@.subrange(lo as int, hi as int)) == trim_start(v@.subrange(a as int, hi as int)),
        decreases hi - a,
    {
        assert(v@.subrange(a as int, hi as int).drop_first() =~= v@.subrange(a + 1, hi as int));
        a = a + 1;
    }
    let mut b: usize = hi;
    while b > a && (v[b - 1] == ' ' || v[b - 1] == '\t' || v[b - 1] == '\r')
        invariant
            lo <= a <= b <= hi <= v@.len(),
            trim_end(v@.subrange(a as int, hi as int)) == trim_end(v@.subrange(a as int, b as int)),
        decreases b - a,
    {
        assert(v@.subrange(a as int, b as int).drop_last() =~= v@.subrange(a as int, b - 1));
        b = b - 1;
    }
    (a, b)
}

/// The ascending listing of a finite set of strings.
pub open spec fn sorted_of(s: Set<Seq<char>>) -> Seq<Seq<char>> {
    choose|q: Seq<Seq<char>>| strictly_sorted(q) && q.to_set() == s
}

/// Two strictly sorted listings of one set are the same listing.
pub proof fn lemma_sorted_unique(a: Seq<Seq<char>>, b: Seq<Seq<char>>)
    requires
        strictly_sorted(a),
        strictly_sorted(b),
        a.to_set() == b.to_set(),
    ensures
        a == b,
    decreases a.len(),
{
    if a.len() == 0 {
        if b.len() > 0 {
            assert(b.to_set().contains(b[0]));
        }
        assert(a =~= b);
    } else {
        assert(a.to_set().contains(a[0]));
        assert(b.len() > 0);
        assert(b.to_set().contains(b[0]));
        let i = choose|i: int| 0 <= i < a.len() && a[i] == b[0];
        let j = choose|j: int| 0 <= j < b.len() && b[j] == a[0];
        if i > 0 {
            assert(text_lt(a[0], a[i]));
            if j > 0 {
                assert(text_lt(b[0], b[j]));
                lemma_text_lt_asymmetric(a[0], b[0]);
            } else {
                lemma_text_lt_irreflexive(a[0]);
            }
        } else if j > 0 {
            assert(text_lt(b[0], b[j]));
            lemma_text_lt_irreflexive(b[0]);
        }
        assert(a[0] == b[0]);
        let a1 = a.drop_first();
        let b1 = b.drop_first();
        assert forall|x: Seq<char>| a1.to_set().contains(x) implies b1.to_set().contains(x) by {
            let k = choose|k: int| 0 <= k < a1.len() && a1[k] == x;
            assert(a[k + 1] == x);
            assert(a.to_set().contains(x));
            let m = choose|m: int| 0 <= m < b.len() && b[m] == x;
            if m == 0 {
                assert(text_lt(a[0], a[k + 1]));
                lemma_text_lt_irreflexive(x);
            }
            assert(b1[m - 1] == x);
        }
        assert forall|x: Seq<char>| b1.to_set().contains(x) implies a1.to_set().contains(x) by {
            let k = choose|k: int| 0 <= k < b1.len() && b1[k] == x;
            assert(b[k + 1] == x);
            assert(b.to_set().contains(x));
            let m = choose|m: int| 0 <= m < a.len() && a[m] == x;
            if m == 0 {
                assert(text_lt(b[0], b[k + 1]));
                lemma_text_lt_irreflexive(x);
            }
            assert(a1[m - 1] == x);
        }
        assert(a1.to_set() =~= b1.to_set());
        lemma_sorted_unique(a1, b1);
        assert(a =~= seq![a[0]] + a1);
        assert(b =~= seq![b[0]] + b1);
    }
}

/// A strictly sorted listing of a set is its `sorted_of`.
pub proof fn lemma_sorted_of(q: Seq<Seq<char>>)
    requires
        strictly_sorted(q),
    ensures
        sorted_of(q.to_set()) == q,
{
    let s = q.to_set();
    assert(strictly_sorted(q) && q.to_set() == s);
    let r = sorted_of(s);
    lemma_sorted_unique(r, q);
}

/// Where `x` stands in the strictly sorted `v`: `Ok(i)` if `v[i]` is `x`, else `Err(i)`
/// with every item before `i` less than `x` and every item from `i` on greater.
pub(crate) fn search_sorted(v: &Vec<String>, x: &Vec<char>) -> (r: Result<usize, usize>)
    requires
        strictly_sorted(views(v@)),
    ensures
        match r {
            Ok(i) => i < v@.len() && v@[i as int]@ == x@,
            Err(i) => i <= v@.len() && (forall|k: int| 0 <= k < i ==> text_lt(#[trigger] v@[k]@, x@))
                && (forall|k: int| i <= k < v@.len() ==> text_lt(x@, #[trigger] v@[k]@)),
        },
{
    let mut lo: usize = 0;
    let mut hi: usize = v.len();
    while lo < hi
        invariant
            0 <= lo <= hi <= v@.len(),
            strictly_sorted(views(v@)),
            forall|k: int| 0 <= k < lo ==> text_lt(#[trigger] v@[k]@, x@),
            forall|k: int| hi <= k < v@.len() ==> text_lt(x@, #[trigger] v@[k]@),
        decreases hi - lo,
    {
        let mid = lo + (hi - lo) / 2;
        let c = chars_of(v[mid].as_str());
        if text_less(&c, x) {
            assert forall|k: int| 0 <= k < mid + 1 implies text_lt(#[trigger] v@[k]@, x@) by {
                if k < mid {
                    assert(text_lt(views(v@)[k], views(v@)[mid as int]));
                    lemma_text_lt_transitive(v@[k]@, v@[mid as int]@, x@);
                }
            }
            lo = mid + 1;
        } else if text_less(x, &c) {
            assert forall|k: int| mid <= k < v@.len() implies text_lt(x@, #[trigger] v@[k]@) by {
                if k > mid {
                    assert(text_lt(views(v@)[mid as int], views(v@)[k]));
                    lemma_text_lt_transitive(x@, v@[mid as int]@, v@[k]@);
                }
            }
            hi = mid;
        } else {
            proof {
                if c@ != x@ {
                    lemma_text_lt_total(c@, x@);
                }
            }
            return Ok(mid);
        }
    }
    Err(lo)
}

/// Adds `x` to the strictly sorted `v`, keeping it strictly sorted; no change if present.
pub(crate) fn insert_sorted(v: &mut Vec<String>, x: String)
    requires
        strictly_sorted(views(old(v)@)),
    ensures
        strictly_sorted(views(final(v)@)),
        views(final(v)@).to_set() == views(old(v)@).to_set().insert(x@),
{
    let xc = chars_of(x.as_str());
    match search_sorted(v, &xc) {
        Ok(i) => {
            assert(views(v@)[i as int] == x@);
            assert(views(v@).to_set().insert(x@) =~= views(v@).to_set());
        },
        Err(i) => {
            let ghost before = views(v@);
            v.insert(i, x);
            assert(views(v@) =~= before.insert(i as int, xc@));
            assert forall|a: int, b: int| 0 <= a < b < views(v@).len() implies text_lt(
                #[trigger] views(v@)[a],
                #[trigger] views(v@)[b],
            ) by {
                if b < i {
                } else if b == i {
                    assert(views(v@)[a] == before[a]);
                } else if a < i {
                    assert(text_lt(before[a], xc@));
                    assert(views(v@)[b] == before[b - 1]);
                    lemma_text_lt_transitive(before[a], xc@, before[b - 1]);
                } else if a == i {
                    assert(views(v@)[b] == before[b - 1]);
                } else {
                    assert(text_lt(before[a - 1], before[b - 1]));
                }
            }
            assert(views(v@).to_set() =~= before.to_set().insert(xc@)) by {
                assert forall|y: Seq<char>| views(v@).to_set().contains(y) implies before.to_set().insert(
                    xc@,
                ).contains(y) by {
                    let k = choose|k: int| 0 <= k < views(v@).len() && views(v@)[k] == y;
                    if k < i {
                        assert(before[k] == y);
                    } else if k > i {
                        assert(before[k - 1] == y);
                    }
                }
                assert forall|y: Seq<char>| before.to_set().insert(xc@).contains(y) implies views(
                    v@,
                ).to_set().contains(y) by {
                    if y == xc@ {
                        assert(views(v@)[i as int] == y);
                    } else {
                        let k = choose|k: int| 0 <= k < before.len() && before[k] == y;
                        if k < i {
                            assert(views(v@)[k] == y);
                        } else {
                            assert(views(v@)[k + 1] == y);
                        }
                    }
                }
            }
        },
    }
}

/// Removes `x` from the strictly sorted `v`, keeping it strictly sorted; no change if absent.
pub(crate) fn remove_sorted(v: &mut Vec<String>, x: &str)
    requires
        strictly_sorted(views(old(v)@)),
    ensures
        strictly_sorted(views(final(v)@)),
        views(final(v)@).to_set() == views(old(v)@).to_set().remove(x@),
{
    let xc = chars_of(x);
    let ghost before = views(v@);
    match search_sorted(v, &xc) {
        Ok(i) => {
            v.remove(i);
            assert(views(v@) =~= before.remove(i as int));
            assert forall|a: int, b: int| 0 <= a < b < views(v@).len() implies text_lt(
                #[trigger] views(v@)[a],
                #[trigger] views(v@)[b],
            ) by {
                let a0 = if a < i { a } else { a + 1 };
                let b0 = if b < i { b } else { b + 1 };
                assert(views(v@)[a] == before[a0]);
                assert(views(v@)[b] == before[b0]);
            }
            assert(views(v@).to_set() =~= before.to_set().remove(xc@)) by {
                assert forall|y: Seq<char>| views(v@).to_set().contains(y) implies before.to_set().remove(
                    xc@,
                ).contains(y) by {
                    let k = choose|k: int| 0 <= k < views(v@).len() && views(v@)[k] == y;
                    let k0 = if k < i { k } else { k + 1 };
                    assert(before[k0] == y);
                    if y == xc@ {
                        if k0 < i {
                            assert(text_lt(before[k0], before[i as int]));
                        } else {
                            assert(text_lt(before[i as int], before[k0]));
                        }
                        lemma_text_lt_irreflexive(y);
                    }
                }
                assert forall|y: Seq<char>| before.to_set().remove(xc@).contains(y) implies views(
                    v@,
                ).to_set().contains(y) by {
                    let k = choose|k: int| 0 <= k < before.len() && before[k] == y;
                    if k < i {
                        assert(views(v@)[k] == y);
                    } else {
                        assert(k != i);
                        assert(views(v@)[k - 1] == y);
                    }
                }
            }
        },
        Err(i) => {
            assert(before.to_set().remove(xc@) =~= before.to_set()) by {
                if before.to_set().contains(xc@) {
                    let k = choose|k: int| 0 <= k < before.len() && before[k] == xc@;
                    if k < i {
                        assert(text_lt(v@[k]@, xc@));
                    } else {
                        assert(text_lt(xc@, v@[k]@));
                    }
                    lemma_text_lt_irreflexive(xc@);
                }
            }
        },
    }
}

/// Appends the characters of `s`.
pub(crate) fn push_chars(out: &mut Vec<char>, s: &str)
    ensures
        final(out)@ == old(out)@ + s@,
{
    let c = chars_of(s);
    let mut i: usize = 0;
    let ghost start = out@;
    while i < c.len()
        invariant
            i <= c@.len(),
            c@ == s@,
            out@ == start + c@.subrange(0, i as int),
        decreases c@.len() - i,
    {
        out.push(c[i]);
        i = i + 1;
        assert(out@ =~= start + c@.subrange(0, i as int));
    }
    assert(c@.subrange(0, c@.len() as int) =~= c@);
}

} // verus!
