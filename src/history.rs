use vstd::multiset::Multiset;
use vstd::prelude::*;

use crate::addr::{dec_text, lemma_dec_text_value, push_radix};
use crate::domain::MAX_DOMAIN_LEN;
use crate::hosts::{parse_hosts, parse_text, LineView, ParseError};
use crate::text::{chars_of, push_chars, split, split_ranges, text_of, trim, trim_range, views};

verus! {

broadcast use vstd::seq_lib::group_to_multiset_ensures, vstd::multiset::group_multiset_axioms;

/// A snapshot of the hosts file in the history directory.
#[derive(Clone, Debug)]
pub struct HistoryEntry {
    pub filename: String,
    pub path: String,
    /// When the snapshot was written, in nanoseconds since the Unix epoch.
    pub timestamp: u64,
    /// How many records the snapshot holds.
    pub entry_count: usize,
    /// Its size in bytes.
    pub file_size: u64,
}

/// Why a hosts file is not fit to publish.
#[derive(Clone, Debug)]
pub enum VerifyError {
    /// It holds nothing but white space.
    Empty,
    /// It does not follow the record grammar.
    Parse(ParseError),
    /// It blocks a name that is empty or longer than `MAX_DOMAIN_LEN`.
    InvalidHostname(String),
}

/// A character of Unicode's White_Space property: the characters that `str::trim` removes.
pub open spec fn is_white_space(c: char) -> bool {
    ||| ('\u{9}' <= c && c <= '\u{d}')
    ||| c == ' '
    ||| c == '\u{85}'
    ||| c == '\u{a0}'
    ||| c == '\u{1680}'
    ||| ('\u{2000}' <= c && c <= '\u{200a}')
    ||| c == '\u{2028}'
    ||| c == '\u{2029}'
    ||| c == '\u{202f}'
    ||| c == '\u{205f}'
    ||| c == '\u{3000}'
}

fn white_space(c: char) -> (r: bool)
    ensures
        r == is_white_space(c),
{
    ('\u{9}' <= c && c <= '\u{d}') || c == ' ' || c == '\u{85}' || c == '\u{a0}' || c == '\u{1680}'
        || ('\u{2000}' <= c && c <= '\u{200a}') || c == '\u{2028}' || c == '\u{2029}' || c
        == '\u{202f}' || c == '\u{205f}' || c == '\u{3000}'
}

/// Nothing but white space: the text trims to nothing.
pub open spec fn is_void(s: Seq<char>) -> bool {
    forall|i: int| 0 <= i < s.len() ==> is_white_space(#[trigger] s[i])
}

pub open spec fn valid_length(x: Seq<char>) -> bool {
    1 <= x.len() <= MAX_DOMAIN_LEN
}

/// Checks hosts-file text before it is published: it holds something, follows the record
/// grammar, and every blocked name is one to `MAX_DOMAIN_LEN` characters long.
pub fn verify_host_file(content: &str) -> (r: Result<(), VerifyError>)
    ensures
        match r {
            Ok(()) => !is_void(content@) && parse_text(content@) is Ok && (forall|x: Seq<char>|
                #[trigger] parse_text(content@)->Ok_0.0.contains(x) ==> valid_length(x)),
            Err(VerifyError::Empty) => is_void(content@),
            Err(VerifyError::Parse(e)) => !is_void(content@) && parse_text(content@) == Err::<
                (Set<Seq<char>>, Seq<LineView>),
                int,
            >(e.line as int),
            Err(VerifyError::InvalidHostname(h)) => !is_void(content@) && parse_text(content@) is Ok
                && parse_text(content@)->Ok_0.0.contains(h@) && !valid_length(h@),
        },
{
    let v = chars_of(content);
    let mut i: usize = 0;
    while i < v.len() && white_space(v[i])
        invariant
            i <= v@.len(),
            forall|k: int| 0 <= k < i ==> is_white_space(#[trigger] v@[k]),
        decreases v@.len() - i,
    {
        i = i + 1;
    }
    if i == v.len() {
        return Err(VerifyError::Empty);
    }
    assert(!is_white_space(content@[i as int]));
    let parsed = match parse_hosts(content) {
        Ok(p) => p,
        Err(e) => {
            return Err(VerifyError::Parse(e));
        },
    };
    let ghost m = views(parsed.blocking@).to_set();
    let mut j: usize = 0;
    while j < parsed.blocking.len()
        invariant
            j <= parsed.blocking@.len(),
            m == views(parsed.blocking@).to_set(),
            !is_void(content@),
            parse_text(content@) is Ok,
            parse_text(content@)->Ok_0.0 == m,
            forall|k: int| 0 <= k < j ==> valid_length(#[trigger] parsed.blocking@[k]@),
        decreases parsed.blocking@.len() - j,
    {
        let name = chars_of(parsed.blocking[j].as_str());
        if name.len() == 0 || name.len() > MAX_DOMAIN_LEN {
            assert(views(parsed.blocking@)[j as int] == parsed.blocking@[j as int]@);
            return Err(VerifyError::InvalidHostname(parsed.blocking[j].clone()));
        }
        j = j + 1;
    }
    assert forall|x: Seq<char>| #[trigger] m.contains(x) implies valid_length(x) by {
        let k = choose|k: int| 0 <= k < views(parsed.blocking@).len() && views(parsed.blocking@)[k] == x;
        assert(parsed.blocking@[k]@ == x);
    }
    Ok(())
}

/// Whether a line counts as a record: not blank and not a comment once trimmed.
pub open spec fn is_record_line(line: Seq<char>) -> bool {
    trim(line).len() > 0 && trim(line)[0] != '#'
}

/// How many of `lines` count as records.
pub open spec fn record_count(lines: Seq<Seq<char>>) -> nat
    decreases lines.len(),
{
    if lines.len() == 0 {
        0
    } else {
        record_count(lines.drop_last()) + if is_record_line(lines.last()) {
            1nat
        } else {
            0nat
        }
    }
}

/// How many lines of hosts-file text are records rather than blanks or comments.
pub fn count_entries(content: &str) -> (r: usize)
    ensures
        r == record_count(split(content@, '\n')),
{
    let v = chars_of(content);
    assert(v@.subrange(0, v@.len() as int) =~= v@);
    let ghost lines = split(v@, '\n');
    let ranges = split_ranges(&v, 0, v.len(), '\n');
    let mut n: usize = 0;
    let mut j: usize = 0;
    assert(lines.subrange(0, 0) =~= Seq::<Seq<char>>::empty());
    while j < ranges.len()
        invariant
            lines == split(v@, '\n'),
            ranges@.len() == lines.len(),
            forall|k: int|
                0 <= k < ranges@.len() ==> 0 <= (#[trigger] ranges@[k]).0 <= ranges@[k].1 <= v@.len()
                    && v@.subrange(ranges@[k].0 as int, ranges@[k].1 as int) == lines[k],
            j <= ranges@.len(),
            n == record_count(lines.subrange(0, j as int)),
            n <= j,
        decreases ranges@.len() - j,
    {
        let ghost cur = lines.subrange(0, j + 1);
        assert(cur.drop_last() =~= lines.subrange(0, j as int));
        assert(cur.last() == lines[j as int]);
        let (a, b) = ranges[j];
        let (ta, tb) = trim_range(&v, a, b);
        let ghost t = v@.subrange(ta as int, tb as int);
        if ta < tb && v[ta] != '#' {
            assert(t[0] == v@[ta as int]);
            n = n + 1;
        } else if ta < tb {
            assert(t[0] == v@[ta as int]);
        }
        j = j + 1;
    }
    assert(lines.subrange(0, lines.len() as int) =~= lines);
    n
}

/// The name of a snapshot: `hosts-backup-<stamp>-<nanoseconds>-<counter>.txt`.
pub open spec fn snapshot_file_name(stamp: Seq<char>, nanos: nat, counter: nat) -> Seq<char> {
    "hosts-backup-"@ + stamp + seq!['-'] + dec_text(nanos) + seq!['-'] + dec_text(counter) + ".txt"@
}

/// The name of a snapshot taken at local time `stamp` and `nanos` nanoseconds into its second,
/// with collision counter `counter`.
pub fn snapshot_filename(stamp: &str, nanos: u32, counter: u32) -> (r: String)
    ensures
        r@ == snapshot_file_name(stamp@, nanos as nat, counter as nat),
{
    let mut out: Vec<char> = Vec::new();
    push_chars(&mut out, "hosts-backup-");
    push_chars(&mut out, stamp);
    out.push('-');
    push_radix(&mut out, nanos, 10);
    out.push('-');
    push_radix(&mut out, counter, 10);
    push_chars(&mut out, ".txt");
    assert(out@ =~= snapshot_file_name(stamp@, nanos as nat, counter as nat));
    text_of(out.as_slice())
}

/// Distinct counters give distinct snapshot names.
proof fn lemma_names_distinct(stamp: Seq<char>, nanos: nat, c: nat, d: nat)
    requires
        c != d,
    ensures
        snapshot_file_name(stamp, nanos, c) != snapshot_file_name(stamp, nanos, d),
{
    let a = "hosts-backup-"@ + stamp + seq!['-'] + dec_text(nanos) + seq!['-'];
    let t = ".txt"@;
    assert(snapshot_file_name(stamp, nanos, c) == a + dec_text(c) + t);
    assert(snapshot_file_name(stamp, nanos, d) == a + dec_text(d) + t);
    if snapshot_file_name(stamp, nanos, c) == snapshot_file_name(stamp, nanos, d) {
        let x = a + dec_text(c) + t;
        assert(dec_text(c).len() == dec_text(d).len());
        assert(x.subrange(a.len() as int, (a.len() + dec_text(c).len()) as int) =~= dec_text(c));
        assert((a + dec_text(d) + t).subrange(a.len() as int, (a.len() + dec_text(d).len()) as int) =~= dec_text(d));
        lemma_dec_text_value(c);
        lemma_dec_text_value(d);
    }
}

/// Whether one of `names` is `x`.
fn contains_name(names: &Vec<String>, x: &String) -> (r: bool)
    ensures
        r == views(names@).contains(x@),
{
    let mut i: usize = 0;
    while i < names.len()
        invariant
            i <= names@.len(),
            forall|k: int| 0 <= k < i ==> names@[k]@ != x@,
        decreases names@.len() - i,
    {
        if names[i] == *x {
            assert(views(names@)[i as int] == x@);
            return true;
        }
        i = i + 1;
    }
    assert forall|k: int| 0 <= k < views(names@).len() implies views(names@)[k] != x@ by {
        assert(views(names@)[k] == names@[k]@);
    }
    false
}

/// The first snapshot name for `stamp` and `nanos` that is not among `existing`, probing
/// the counter upward from zero; `None` only if every counter is taken.
pub fn free_snapshot_name(existing: &Vec<String>, stamp: &str, nanos: u32) -> (r: Option<String>)
    ensures
        match r {
            Some(n) => !views(existing@).contains(n@) && exists|c: u32|
                n@ == snapshot_file_name(stamp@, nanos as nat, c as nat) && forall|d: u32|
                    d < c ==> views(existing@).contains(
                        #[trigger] snapshot_file_name(stamp@, nanos as nat, d as nat),
                    ),
            None => forall|d: u32|
                views(existing@).contains(#[trigger] snapshot_file_name(stamp@, nanos as nat, d as nat)),
        },
        existing@.len() <= u32::MAX ==> r is Some,
{
    let ghost all = views(existing@).to_set();
    let ghost mut seen = Set::<Seq<char>>::empty();
    proof {
        views(existing@).lemma_cardinality_of_set();
        vstd::seq_lib::seq_to_set_is_finite(views(existing@));
    }
    let mut c: u32 = 0;
    loop
        invariant
            all == views(existing@).to_set(),
            all.finite(),
            all.len() <= existing@.len(),
            forall|d: u32|
                d < c ==> views(existing@).contains(
                    #[trigger] snapshot_file_name(stamp@, nanos as nat, d as nat),
                ),
            seen.finite(),
            seen.len() == c,
            seen.subset_of(all),
            forall|x: Seq<char>| #[trigger] seen.contains(x) ==> exists|d: u32| d < c && x == snapshot_file_name(
                stamp@,
                nanos as nat,
                d as nat,
            ),
        decreases u32::MAX - c,
    {
        let name = snapshot_filename(stamp, nanos, c);
        if !contains_name(existing, &name) {
            return Some(name);
        }
        proof {
            assert(!seen.contains(name@)) by {
                if seen.contains(name@) {
                    let d = choose|d: u32| d < c && name@ == snapshot_file_name(stamp@, nanos as nat, d as nat);
                    lemma_names_distinct(stamp@, nanos as nat, c as nat, d as nat);
                }
            }
            let k = choose|k: int| 0 <= k < views(existing@).len() && views(existing@)[k] == name@;
            assert(all.contains(name@));
            seen = seen.insert(name@);
            vstd::set_lib::lemma_len_subset(seen, all);
        }
        if c == u32::MAX {
            assert forall|d: u32| views(existing@).contains(
                #[trigger] snapshot_file_name(stamp@, nanos as nat, d as nat),
            ) by {
                if d == c {
                } else {
                    assert(d < c);
                }
            }
            return None;
        }
        c = c + 1;
        proof {
            assert forall|x: Seq<char>| #[trigger] seen.contains(x) implies exists|d: u32| d < c && x == snapshot_file_name(
                stamp@,
                nanos as nat,
                d as nat,
            ) by {
                if x != name@ {
                    let d = choose|d: u32| d < c - 1 && x == snapshot_file_name(stamp@, nanos as nat, d as nat);
                    assert(d < c);
                } else {
                    assert(((c - 1) as u32) < c);
                }
            }
        }
    }
}

/// The last second of the year 9999, the latest time a snapshot name is made for.
pub const LAST_STAMP_SECS: i64 = 253402300799;

/// Relies on chrono's `DateTime::<Utc>::from_timestamp`, `with_timezone(&Local)` and
/// `format`: the local date and time of a Unix timestamp written with `fmt`. `from_timestamp`
/// fails only for seconds beyond chrono's range or a nanosecond count of a second or more,
/// so within the bounds below a valid nanosecond count always gives a stamp. What the stamp
/// says depends on the machine's time zone.
/// chrono panics where its time-zone lookup fails, which the bounds on `secs` keep out.
#[verifier::external_body]
fn local_stamp(secs: i64, nanos: u32, fmt: &str) -> (r: Option<String>)
    requires
        0 <= secs <= LAST_STAMP_SECS,
        fmt@ == "%Y-%m-%d-%H-%M-%S"@,
    ensures
        nanos < 1_000_000_000 ==> r is Some,
{
    match chrono::DateTime::<chrono::Utc>::from_timestamp(secs, nanos) {
        Some(t) => Some(t.with_timezone(&chrono::Local).format(fmt).to_string()),
        None => None,
    }
}

/// The name of a new snapshot taken `secs` seconds and `nanos` nanoseconds after the Unix
/// epoch: the local time of day in the name, then the first counter whose name is free.
/// `None` for a time before the epoch or after the year 9999; otherwise, with a valid
/// nanosecond count, always a name.
pub fn write_history_snapshot_name(existing: &Vec<String>, secs: i64, nanos: u32) -> (r: Option<String>)
    ensures
        secs < 0 || secs > LAST_STAMP_SECS ==> r is None,
        0 <= secs <= LAST_STAMP_SECS && nanos < 1_000_000_000 && existing@.len() <= u32::MAX ==> r is Some,
        r matches Some(n) ==> !views(existing@).contains(n@) && exists|stamp: Seq<char>, c: u32|
            n@ == snapshot_file_name(stamp, nanos as nat, c as nat) && forall|d: u32|
                d < c ==> views(existing@).contains(
                    #[trigger] snapshot_file_name(stamp, nanos as nat, d as nat),
                ),
{
    if secs < 0 || secs > LAST_STAMP_SECS {
        return None;
    }
    let fmt = "%Y-%m-%d-%H-%M-%S";
    match local_stamp(secs, nanos, fmt) {
        Some(stamp) => free_snapshot_name(existing, stamp.as_str(), nanos),
        None => None,
    }
}

/// Newest first: timestamps never increase along the sequence.
pub open spec fn newest_first(s: Seq<HistoryEntry>) -> bool {
    forall|i: int, j: int| 0 <= i < j < s.len() ==> (#[trigger] s[i]).timestamp >= (#[trigger] s[j]).timestamp
}

/// The snapshots found in the history directory, newest first; snapshots written at the same
/// time keep no particular order.
pub fn list_history_entries(entries: Vec<HistoryEntry>) -> (r: Vec<HistoryEntry>)
    ensures
        newest_first(r@),
        r@.to_multiset() == entries@.to_multiset(),
{
    let mut rest = entries;
    let mut r: Vec<HistoryEntry> = Vec::new();
    assert(r@.to_multiset() =~= Multiset::<HistoryEntry>::empty());
    assert(r@.to_multiset().add(rest@.to_multiset()) =~= entries@.to_multiset());
    while rest.len() > 0
        invariant
            newest_first(r@),
            r@.to_multiset().add(rest@.to_multiset()) == entries@.to_multiset(),
        decreases rest@.len(),
    {
        let ghost before = rest@;
        let e = rest.pop().unwrap();
        assert(before =~= rest@.push(e));
        let mut p: usize = 0;
        while p < r.len() && r[p].timestamp >= e.timestamp
            invariant
                p <= r@.len(),
                forall|k: int| 0 <= k < p ==> (#[trigger] r@[k]).timestamp >= e.timestamp,
            decreases r@.len() - p,
        {
            p = p + 1;
        }
        let ghost old_r = r@;
        r.insert(p, e);
        assert(r@ == old_r.insert(p as int, e));
        assert forall|i: int, j: int| 0 <= i < j < r@.len() implies (#[trigger] r@[i]).timestamp
            >= (#[trigger] r@[j]).timestamp by {
            if j < p {
                assert(r@[i] == old_r[i] && r@[j] == old_r[j]);
            } else if j == p {
                assert(r@[i] == old_r[i]);
            } else if i < p {
                assert(r@[i] == old_r[i] && r@[j] == old_r[j - 1]);
            } else if i == p {
                assert(r@[j] == old_r[j - 1]);
                assert(old_r[p as int].timestamp < e.timestamp);
            } else {
                assert(r@[i] == old_r[i - 1] && r@[j] == old_r[j - 1]);
            }
        }
        assert(r@.to_multiset() == old_r.to_multiset().insert(e));
        assert(before.to_multiset() == rest@.to_multiset().insert(e));
        assert(r@.to_multiset().add(rest@.to_multiset()) =~= old_r.to_multiset().add(before.to_multiset()));
    }
    assert(rest@ =~= Seq::<HistoryEntry>::empty());
    assert(r@.to_multiset().add(rest@.to_multiset()) =~= r@.to_multiset());
    r
}

/// Which snapshots stay and which go when at most `max_entries` may stay.
pub struct RetentionPlan {
    /// The newest snapshots, newest first.
    pub keep: Vec<HistoryEntry>,
    /// The others, to be deleted.
    pub remove: Vec<HistoryEntry>,
}

/// `keep` is what may stay of the snapshots `all` when at most `k` may: as many as `k`
/// allows, taken from `all`, none older than a snapshot that goes.
pub open spec fn retains(all: Seq<HistoryEntry>, keep: Seq<HistoryEntry>, k: nat) -> bool {
    exists|remove: Seq<HistoryEntry>|
        #![trigger (keep + remove).to_multiset()]
        keep.len() == (if all.len() <= k {
            all.len()
        } else {
            k
        }) && (keep + remove).to_multiset() == all.to_multiset() && forall|i: int, j: int|
            0 <= i < keep.len() && 0 <= j < remove.len() ==> (#[trigger] remove[j]).timestamp
                <= (#[trigger] keep[i]).timestamp
}

/// Splits the snapshots into the `max_entries` newest, which stay, and the rest, which go.
pub fn cleanup_old_history(entries: Vec<HistoryEntry>, max_entries: usize) -> (r: RetentionPlan)
    ensures
        r.keep@.len() == if entries@.len() <= max_entries {
            entries@.len()
        } else {
            max_entries as nat
        },
        r.keep@.len() + r.remove@.len() == entries@.len(),
        (r.keep@ + r.remove@).to_multiset() == entries@.to_multiset(),
        newest_first(r.keep@),
        forall|i: int, j: int|
            0 <= i < r.keep@.len() && 0 <= j < r.remove@.len() ==> (#[trigger] r.remove@[j]).timestamp
                <= (#[trigger] r.keep@[i]).timestamp,
        retains(entries@, r.keep@, max_entries as nat),
{
    let sorted = list_history_entries(entries);
    proof {
        sorted@.to_multiset_ensures();
        entries@.to_multiset_ensures();
    }
    let mut keep = sorted;
    let ghost all = keep@;
    let at: usize = if keep.len() <= max_entries {
        keep.len()
    } else {
        max_entries
    };
    let remove = keep.split_off(at);
    proof {
        assert(keep@ + remove@ =~= all);
        assert forall|i: int, j: int|
            0 <= i < keep@.len() && 0 <= j < remove@.len() implies (#[trigger] remove@[j]).timestamp
                <= (#[trigger] keep@[i]).timestamp by {
            assert(all[at + j] == remove@[j]);
            assert(all[i] == keep@[i]);
        }
        assert forall|i: int, j: int| 0 <= i < j < keep@.len() implies (#[trigger] keep@[i]).timestamp
            >= (#[trigger] keep@[j]).timestamp by {
            assert(all[i] == keep@[i] && all[j] == keep@[j]);
        }
    }
    assert((keep@ + remove@).to_multiset() == entries@.to_multiset());
    RetentionPlan { keep, remove }
}

/// Snapshots written one after another: each strictly newer than the one before.
pub open spec fn written_in_order(es: Seq<HistoryEntry>) -> bool {
    forall|i: int, j: int| 0 <= i < j < es.len() ==> (#[trigger] es[i]).timestamp < (#[trigger] es[j]).timestamp
}

/// The last `k` of the first `n` snapshots (all of them if there are no more than `k`).
pub open spec fn last_written(es: Seq<HistoryEntry>, n: int, k: nat) -> Seq<HistoryEntry> {
    es.subrange(if n <= k { 0 } else { n - k }, n)
}

proof fn lemma_retain_step(es: Seq<HistoryEntry>, i: int, k: nat, h: Seq<HistoryEntry>, h2: Seq<HistoryEntry>)
    requires
        written_in_order(es),
        0 <= i < es.len(),
        h.to_multiset() == last_written(es, i, k).to_multiset(),
        retains(h.push(es[i]), h2, k),
    ensures
        h2.to_multiset() == last_written(es, i + 1, k).to_multiset(),
{
    let lo: int = if i <= k { 0 } else { i - k };
    let all = h.push(es[i]);
    let seg = es.subrange(lo, i + 1);
    assert(seg =~= last_written(es, i, k).push(es[i]));
    assert(all.to_multiset() == seg.to_multiset());
    assert(all.len() == seg.len()) by {
        all.to_multiset_ensures();
        seg.to_multiset_ensures();
    }
    let remove = choose|remove: Seq<HistoryEntry>|
        #![trigger (h2 + remove).to_multiset()]
        h2.len() == (if all.len() <= k {
            all.len()
        } else {
            k
        }) && (h2 + remove).to_multiset() == all.to_multiset() && forall|a: int, b: int|
            0 <= a < h2.len() && 0 <= b < remove.len() ==> (#[trigger] remove[b]).timestamp
                <= (#[trigger] h2[a]).timestamp;
    vstd::seq_lib::lemma_multiset_commutative(h2, remove);
    assert(h2.len() + remove.len() == all.len()) by {
        (h2 + remove).to_multiset_ensures();
        all.to_multiset_ensures();
    }
    if i < k {
        assert(remove.len() == 0);
        assert(remove =~= Seq::<HistoryEntry>::empty());
        assert(h2 + remove =~= h2);
        assert(last_written(es, i + 1, k) =~= seg);
    } else {
        assert(remove.len() == 1);
        let x = remove[0];
        assert(remove =~= seq![x]);
        assert(remove.to_multiset().count(x) > 0);
        assert(seg.to_multiset().count(x) > 0);
        let j = choose|j: int| 0 <= j < seg.len() && seg[j] == x;
        if j > 0 {
            let y = seg[0];
            assert(es[lo] == y && es[lo + j] == x);
            assert(y.timestamp < x.timestamp);
            assert(y != x);
            assert(seg.to_multiset().count(y) > 0);
            assert(remove.to_multiset().count(y) == 0);
            assert(h2.to_multiset().count(y) > 0);
            let a = choose|a: int| 0 <= a < h2.len() && h2[a] == y;
            assert(remove[0].timestamp <= h2[a].timestamp);
        }
        let rest = seg.drop_first();
        assert(seg =~= seq![x] + rest);
        vstd::seq_lib::lemma_multiset_commutative(seq![x], rest);
        assert(seq![x].to_multiset() =~= Multiset::<HistoryEntry>::empty().insert(x)) by {
            assert(seq![x] =~= Seq::<HistoryEntry>::empty().push(x));
        }
        assert(last_written(es, i + 1, k) =~= rest);
        assert(h2.to_multiset() =~= rest.to_multiset()) by {
            assert forall|e: HistoryEntry| h2.to_multiset().count(e) == rest.to_multiset().count(e) by {
                assert((h2 + remove).to_multiset().count(e) == seg.to_multiset().count(e));
            }
        }
    }
}

/// The history bound: after any number of commits, each writing a snapshot newer than all
/// before it and then keeping what `cleanup_old_history` keeps with bound `k`, the history
/// holds exactly the last `k` snapshots written (all of them while there are no more than `k`).
pub proof fn lemma_history_bound(es: Seq<HistoryEntry>, k: nat, hist: Seq<Seq<HistoryEntry>>)
    requires
        written_in_order(es),
        hist.len() == es.len() + 1,
        hist[0] == Seq::<HistoryEntry>::empty(),
        forall|i: int| 0 <= i < es.len() ==> retains(#[trigger] hist[i].push(es[i]), hist[i + 1], k),
    ensures
        hist.last().to_multiset() == last_written(es, es.len() as int, k).to_multiset(),
        hist.last().len() == (if es.len() <= k { es.len() } else { k }),
    decreases es.len(),
{
    if es.len() == 0 {
        assert(last_written(es, 0, k) =~= Seq::<HistoryEntry>::empty());
    } else {
        let n = es.len() - 1;
        let es0 = es.drop_last();
        let hist0 = hist.drop_last();
        assert forall|i: int| 0 <= i < es0.len() implies retains(#[trigger] hist0[i].push(es0[i]), hist0[i + 1], k) by {
            assert(hist0[i] == hist[i] && hist0[i + 1] == hist[i + 1] && es0[i] == es[i]);
            assert(retains(hist[i].push(es[i]), hist[i + 1], k));
        }
        lemma_history_bound(es0, k, hist0);
        assert(last_written(es0, n, k) =~= last_written(es, n, k));
        assert(hist0.last() == hist[n]);
        assert(retains(hist[n].push(es[n]), hist[n + 1], k));
        lemma_retain_step(es, n, k, hist[n], hist[n + 1]);
        hist.last().to_multiset_ensures();
        last_written(es, es.len() as int, k).to_multiset_ensures();
    }
}

/// The position of the snapshot named `filename`, if there is one.
pub fn find_history_entry(entries: &Vec<HistoryEntry>, filename: &str) -> (r: Option<usize>)
    ensures
        match r {
            Some(i) => i < entries@.len() && entries@[i as int].filename@ == filename@,
            None => forall|i: int| 0 <= i < entries@.len() ==> (#[trigger] entries@[i]).filename@ != filename@,
        },
{
    let target = String::from_str(filename);
    let mut i: usize = 0;
    while i < entries.len()
        invariant
            i <= entries@.len(),
            target@ == filename@,
            forall|k: int| 0 <= k < i ==> (#[trigger] entries@[k]).filename@ != filename@,
        decreases entries@.len() - i,
    {
        if entries[i].filename == target {
            return Some(i);
        }
        i = i + 1;
    }
    None
}

} // verus!
