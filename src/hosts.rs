use vstd::prelude::*;

use crate::addr::{
    address_text, is_localhost_ip, is_loopback, parse_address_range, push_address, render, IpAddress,
};
use crate::domain::{is_local, is_local_range};
use crate::text::{
    chars_of, insert_sorted, join_lines, push_chars, join_words, lemma_sorted_of, sorted_of, split, split_ranges,
    strictly_sorted, text_of, text_range, token_ranges, tokens, trim, trim_range, views,
};

verus! {

/// A line of a hosts file that the block list does not own and keeps as it was.
#[derive(Clone, Debug)]
pub enum PreservedLine {
    /// A comment, trimmed.
    Comment(String),
    /// A record whose address is not a loopback address, or not an address at all, trimmed.
    NonLocalhostEntry(String),
    /// A loopback address mapped to a name of this machine.
    LocalhostEntry { ip: IpAddress, hostname: String },
}

/// What a preserved line holds.
pub enum LineView {
    Comment(Seq<char>),
    Foreign(Seq<char>),
    Alias(IpAddress, Seq<char>),
}

impl View for PreservedLine {
    type V = LineView;

    open spec fn view(&self) -> LineView {
        match self {
            PreservedLine::Comment(s) => LineView::Comment(s@),
            PreservedLine::NonLocalhostEntry(s) => LineView::Foreign(s@),
            PreservedLine::LocalhostEntry { ip, hostname } => LineView::Alias(*ip, hostname@),
        }
    }
}

pub open spec fn line_views(v: Seq<PreservedLine>) -> Seq<LineView> {
    v.map_values(|l: PreservedLine| l@)
}

/// A hosts file split into the names it blocks and the lines it keeps.
#[derive(Clone, Debug)]
pub struct ParsedHosts {
    /// The blocked names, ascending and without duplicates.
    pub blocking: Vec<String>,
    /// The kept lines, in the order of the file.
    pub preserved_lines: Vec<PreservedLine>,
}

impl ParsedHosts {
    pub open spec fn blocked(&self) -> Set<Seq<char>> {
        views(self.blocking@).to_set()
    }

    pub open spec fn lines(&self) -> Seq<LineView> {
        line_views(self.preserved_lines@)
    }

    pub open spec fn wf(&self) -> bool {
        strictly_sorted(views(self.blocking@))
    }
}

/// A hosts file that does not follow the record grammar: the 1-based number of the first
/// line that holds a single field.
#[derive(Clone, Copy, Debug, PartialEq, Eq, Structural)]
pub struct ParseError {
    pub line: usize,
}

/// What one line of a hosts file is.
pub enum LineKind {
    Blank,
    Note(Seq<char>),
    Foreign(Seq<char>),
    Loopback(IpAddress, Seq<Seq<char>>),
    Malformed,
}

/// A line, trimmed: empty, a comment (`#` first), or an address and one or more names.
/// A record whose first field is a loopback address lends its names to the block list;
/// any other record is kept whole.
pub open spec fn classify(line: Seq<char>) -> LineKind {
    let t = trim(line);
    if t.len() == 0 {
        LineKind::Blank
    } else if t[0] == '#' {
        LineKind::Note(t)
    } else {
        let w = tokens(t);
        if w.len() < 2 {
            LineKind::Malformed
        } else {
            match address_text(w[0]) {
                Some(a) => if is_loopback(a) {
                    LineKind::Loopback(a, w.drop_first())
                } else {
                    LineKind::Foreign(t)
                },
                None => LineKind::Foreign(t),
            }
        }
    }
}

/// The names of a loopback record that are blocked: those that do not name this machine.
pub open spec fn blocked_names(hs: Seq<Seq<char>>) -> Set<Seq<char>>
    decreases hs.len(),
{
    if hs.len() == 0 {
        Set::empty()
    } else if is_local(hs.last()) {
        blocked_names(hs.drop_last())
    } else {
        blocked_names(hs.drop_last()).insert(hs.last())
    }
}

/// The names of a loopback record that name this machine, as kept lines.
pub open spec fn alias_lines(a: IpAddress, hs: Seq<Seq<char>>) -> Seq<LineView>
    decreases hs.len(),
{
    if hs.len() == 0 {
        Seq::empty()
    } else if is_local(hs.last()) {
        alias_lines(a, hs.drop_last()).push(LineView::Alias(a, hs.last()))
    } else {
        alias_lines(a, hs.drop_last())
    }
}

/// The blocked names and kept lines of a sequence of lines, or the 1-based number of the
/// first malformed line.
pub open spec fn parse_lines(lines: Seq<Seq<char>>) -> Result<(Set<Seq<char>>, Seq<LineView>), int>
    decreases lines.len(),
{
    if lines.len() == 0 {
        Ok((Set::empty(), Seq::empty()))
    } else {
        match parse_lines(lines.drop_last()) {
            Err(n) => Err(n),
            Ok((m, p)) => match classify(lines.last()) {
                LineKind::Blank => Ok((m, p)),
                LineKind::Note(t) => Ok((m, p.push(LineView::Comment(t)))),
                LineKind::Foreign(t) => Ok((m, p.push(LineView::Foreign(t)))),
                LineKind::Loopback(a, hs) => Ok((m + blocked_names(hs), p + alias_lines(a, hs))),
                LineKind::Malformed => Err(lines.len() as int),
            },
        }
    }
}

/// The first malformed line of a prefix stays the first of the whole.
proof fn lemma_error_sticks(lines: Seq<Seq<char>>, n: int)
    requires
        0 <= n <= lines.len(),
        parse_lines(lines.subrange(0, n)) is Err,
    ensures
        parse_lines(lines) == parse_lines(lines.subrange(0, n)),
    decreases lines.len() - n,
{
    if n == lines.len() {
        assert(lines.subrange(0, n) =~= lines);
    } else {
        assert(lines.subrange(0, n + 1).drop_last() =~= lines.subrange(0, n));
        lemma_error_sticks(lines, n + 1);
    }
}

/// The meaning of a hosts file: its lines are the pieces between line feeds.
pub open spec fn parse_text(text: Seq<char>) -> Result<(Set<Seq<char>>, Seq<LineView>), int> {
    parse_lines(split(text, '\n'))
}

/// Parses hosts-file text into the blocked names and the lines to keep.
///
/// A malformed address never fails the parse: that record is kept whole. Only a record
/// with a single field fails it.
pub fn parse_hosts(content: &str) -> (r: Result<ParsedHosts, ParseError>)
    ensures
        match r {
            Ok(p) => p.wf() && parse_text(content@) == Ok::<_, int>((p.blocked(), p.lines())),
            Err(e) => parse_text(content@) == Err::<(Set<Seq<char>>, Seq<LineView>), int>(
                e.line as int,
            ),
        },
{
    let v = chars_of(content);
    assert(v@.subrange(0, v@.len() as int) =~= v@);
    let ghost lines = split(v@, '\n');
    let ranges = split_ranges(&v, 0, v.len(), '\n');
    let mut blocking: Vec<String> = Vec::new();
    let mut kept: Vec<PreservedLine> = Vec::new();
    let mut j: usize = 0;
    assert(lines.subrange(0, 0) =~= Seq::<Seq<char>>::empty());
    assert(views(blocking@).to_set() =~= Set::<Seq<char>>::empty());
    assert(line_views(kept@) =~= Seq::<LineView>::empty());
    while j < ranges.len()
        invariant
            v@ == content@,
            lines == split(v@, '\n'),
            ranges@.len() == lines.len(),
            forall|k: int|
                0 <= k < ranges@.len() ==> 0 <= (#[trigger] ranges@[k]).0 <= ranges@[k].1 <= v@.len()
                    && v@.subrange(ranges@[k].0 as int, ranges@[k].1 as int) == lines[k],
            j <= ranges@.len(),
            strictly_sorted(views(blocking@)),
            parse_lines(lines.subrange(0, j as int)) == Ok::<_, int>(
                (views(blocking@).to_set(), line_views(kept@)),
            ),
        decreases ranges@.len() - j,
    {
        let ghost pre = lines.subrange(0, j as int);
        let ghost cur = lines.subrange(0, j + 1);
        assert(cur.drop_last() =~= pre);
        assert(cur.last() == lines[j as int]);
        let ghost m0 = views(blocking@).to_set();
        let ghost kept0 = line_views(kept@);
        let (a, b) = ranges[j];
        let (ta, tb) = trim_range(&v, a, b);
        let ghost t = v@.subrange(ta as int, tb as int);
        assert(v@.subrange(a as int, b as int) == lines[j as int]);
        assert(t == trim(lines[j as int]));
        if ta == tb {
        } else if v[ta] == '#' {
            assert(t[0] == v@[ta as int]);
            let line = PreservedLine::Comment(text_range(&v, ta, tb));
            kept.push(line);
            assert(line_views(kept@) =~= kept0.push(LineView::Comment(t)));
        } else {
            assert(t[0] == v@[ta as int]);
            let toks = token_ranges(&v, ta, tb);
            if toks.len() < 2 {
                assert(classify(lines[j as int]) is Malformed);
                assert(parse_lines(cur) == Err::<(Set<Seq<char>>, Seq<LineView>), int>(j + 1));
                proof {
                    lemma_error_sticks(lines, j + 1);
                    assert(v@ == content@);
                    assert(parse_text(content@) == parse_lines(cur));
                }
                return Err(ParseError { line: j + 1 });
            }
            let ghost w = tokens(t);
            let addr = parse_address_range(&v, toks[0].0, toks[0].1);
            let loopback = match addr {
                Some(ip) => is_localhost_ip(&ip),
                None => false,
            };
            if !loopback {
                let line = PreservedLine::NonLocalhostEntry(text_range(&v, ta, tb));
                kept.push(line);
                assert(line_views(kept@) =~= kept0.push(LineView::Foreign(t)));
            } else {
                let ip = addr.unwrap();
                let ghost hs = w.drop_first();
                let mut k: usize = 1;
                assert(hs.subrange(0, 0) =~= Seq::<Seq<char>>::empty());
                assert(m0 + Set::<Seq<char>>::empty() =~= m0);
                assert(kept0 + Seq::<LineView>::empty() =~= kept0);
                while k < toks.len()
                    invariant
                        1 <= k <= toks@.len(),
                        toks@.len() == w.len(),
                        hs == w.drop_first(),
                        ta <= tb <= v@.len(),
                        forall|q: int|
                            0 <= q < toks@.len() ==> ta <= (#[trigger] toks@[q]).0 < toks@[q].1 <= tb
                                && v@.subrange(toks@[q].0 as int, toks@[q].1 as int) == w[q],
                        strictly_sorted(views(blocking@)),
                        views(blocking@).to_set() == m0 + blocked_names(hs.subrange(0, k - 1)),
                        line_views(kept@) == kept0 + alias_lines(ip, hs.subrange(0, k - 1)),
                    decreases toks@.len() - k,
                {
                    let ghost sub = hs.subrange(0, k as int);
                    assert(sub.drop_last() =~= hs.subrange(0, k - 1));
                    assert(sub.last() == w[k as int]);
                    let (ha, hb) = toks[k];
                    if is_local_range(&v, ha, hb) {
                        let line = PreservedLine::LocalhostEntry { ip, hostname: text_range(&v, ha, hb) };
                        let ghost before = line_views(kept@);
                        kept.push(line);
                        assert(line_views(kept@) =~= before.push(LineView::Alias(ip, w[k as int])));
                        assert(kept0 + alias_lines(ip, sub) =~= (kept0 + alias_lines(ip, hs.subrange(0, k - 1))).push(
                            LineView::Alias(ip, w[k as int]),
                        ));
                    } else {
                        insert_sorted(&mut blocking, text_range(&v, ha, hb));
                        assert(m0 + blocked_names(sub) =~= (m0 + blocked_names(hs.subrange(0, k - 1))).insert(
                            w[k as int],
                        ));
                    }
                    k = k + 1;
                }
                assert(hs.subrange(0, hs.len() as int) =~= hs);
            }
        }
        j = j + 1;
    }
    assert(lines.subrange(0, lines.len() as int) =~= lines);
    Ok(ParsedHosts { blocking, preserved_lines: kept })
}

/// The addresses of the aliases among kept lines, each once, in order of first appearance.
pub open spec fn alias_addrs(lines: Seq<LineView>) -> Seq<IpAddress>
    decreases lines.len(),
{
    if lines.len() == 0 {
        Seq::empty()
    } else {
        let r = alias_addrs(lines.drop_last());
        match lines.last() {
            LineView::Alias(a, _) => if r.contains(a) {
                r
            } else {
                r.push(a)
            },
            _ => r,
        }
    }
}

/// The names that kept lines alias to the address `a`.
pub open spec fn alias_hosts(lines: Seq<LineView>, a: IpAddress) -> Set<Seq<char>> {
    Set::new(|h: Seq<char>| exists|i: int| 0 <= i < lines.len() && lines[i] == LineView::Alias(a, h))
}

/// A record: an address and its names, separated by single spaces.
pub open spec fn record_text(a: IpAddress, names: Seq<Seq<char>>) -> Seq<char> {
    join_words(seq![render(a)] + names, ' ')
}

/// The lines written for the first `n` of the kept lines `all`: comments and foreign
/// records as they are; at the first alias of an address, one record of every name that `all`
/// aliases to it, ascending; at later aliases of that address, nothing.
pub open spec fn body_lines(all: Seq<LineView>, n: int) -> Seq<Seq<char>>
    decreases n,
{
    if n <= 0 {
        Seq::empty()
    } else {
        let r = body_lines(all, n - 1);
        match all[n - 1] {
            LineView::Comment(t) => r.push(t),
            LineView::Foreign(t) => r.push(t),
            LineView::Alias(a, _) => if alias_addrs(all.subrange(0, n - 1)).contains(a) {
                r
            } else {
                r.push(record_text(a, sorted_of(alias_hosts(all, a))))
            },
        }
    }
}

/// The address under which every blocked name is written.
pub open spec fn canonical_loopback() -> IpAddress {
    IpAddress::V4(127, 0, 0, 1)
}

/// The record of the blocked names, ascending, if there is any.
pub open spec fn blocking_records(m: Set<Seq<char>>) -> Seq<Seq<char>> {
    if m == Set::<Seq<char>>::empty() {
        Seq::empty()
    } else {
        seq![record_text(canonical_loopback(), sorted_of(m))]
    }
}

/// The text of a hosts file: the kept lines in order, the aliases of each address gathered
/// into one record where the first of them stood, then the record of the blocked names; each
/// line ends in a line feed.
pub open spec fn serialize_text(m: Set<Seq<char>>, lines: Seq<LineView>) -> Seq<char> {
    join_lines(body_lines(lines, lines.len() as int) + blocking_records(m), '\n')
}

pub(crate) proof fn lemma_alias_hosts_push(lines: Seq<LineView>, l: LineView, b: IpAddress)
    ensures
        alias_hosts(lines.push(l), b) == (match l {
            LineView::Alias(a, h) => if a == b {
                alias_hosts(lines, b).insert(h)
            } else {
                alias_hosts(lines, b)
            },
            _ => alias_hosts(lines, b),
        }),
{
    let n = lines.push(l);
    let expected = match l {
        LineView::Alias(a, h) => if a == b {
            alias_hosts(lines, b).insert(h)
        } else {
            alias_hosts(lines, b)
        },
        _ => alias_hosts(lines, b),
    };
    assert forall|h: Seq<char>| alias_hosts(n, b).contains(h) implies expected.contains(h) by {
        let i = choose|i: int| 0 <= i < n.len() && n[i] == LineView::Alias(b, h);
        if i < lines.len() {
            assert(lines[i] == LineView::Alias(b, h));
        }
    }
    assert forall|h: Seq<char>| expected.contains(h) implies alias_hosts(n, b).contains(h) by {
        if alias_hosts(lines, b).contains(h) {
            let i = choose|i: int| 0 <= i < lines.len() && lines[i] == LineView::Alias(b, h);
            assert(n[i] == LineView::Alias(b, h));
        } else {
            assert(n[lines.len() as int] == LineView::Alias(b, h));
        }
    }
    assert(alias_hosts(n, b) =~= expected);
}

/// Appends the record of `a` and `names`, and a line feed.
fn push_record(out: &mut Vec<char>, a: IpAddress, names: &Vec<String>)
    ensures
        final(out)@ == old(out)@ + record_text(a, views(names@)).push('\n'),
{
    let ghost start = out@;
    let ghost r = render(a);
    push_address(out, a);
    let mut k: usize = 0;
    assert(seq![r] + views(names@).subrange(0, 0) =~= seq![r]);
    while k < names.len()
        invariant
            k <= names@.len(),
            out@ == start + join_words(seq![r] + views(names@).subrange(0, k as int), ' '),
        decreases names@.len() - k,
    {
        let ghost w = seq![r] + views(names@).subrange(0, k + 1);
        assert(w.drop_last() =~= seq![r] + views(names@).subrange(0, k as int));
        assert(w.last() == names@[k as int]@);
        out.push(' ');
        push_chars(out, names[k].as_str());
        k = k + 1;
        assert(out@ =~= start + join_words(w, ' '));
    }
    assert(views(names@).subrange(0, names@.len() as int) =~= views(names@));
    out.push('\n');
    assert(out@ =~= start + record_text(a, views(names@)).push('\n'));
}

/// Whether `a` is among `v`.
fn contains_address(v: &Vec<IpAddress>, a: IpAddress) -> (r: bool)
    ensures
        r == v@.contains(a),
{
    let mut i: usize = 0;
    while i < v.len()
        invariant
            i <= v@.len(),
            forall|k: int| 0 <= k < i ==> v@[k] != a,
        decreases v@.len() - i,
    {
        if v[i] == a {
            return true;
        }
        i = i + 1;
    }
    false
}

/// Writes the blocked names and kept lines back as hosts-file text: the kept comments and
/// foreign records in their order, the aliases of each address gathered into one record
/// (names ascending) where the first of them stood, then `127.0.0.1` with every blocked
/// name, ascending.
pub fn serialize_hosts(preserved_lines: &Vec<PreservedLine>, blocking: &Vec<String>) -> (r: String)
    requires
        strictly_sorted(views(blocking@)),
    ensures
        r@ == serialize_text(views(blocking@).to_set(), line_views(preserved_lines@)),
{
    let ghost lv = line_views(preserved_lines@);
    let mut addrs: Vec<IpAddress> = Vec::new();
    let mut groups: Vec<Vec<String>> = Vec::new();
    let mut i: usize = 0;
    assert(lv.subrange(0, 0) =~= Seq::<LineView>::empty());
    while i < preserved_lines.len()
        invariant
            lv == line_views(preserved_lines@),
            i <= preserved_lines@.len(),
            addrs@ == alias_addrs(lv.subrange(0, i as int)),
            addrs@.no_duplicates(),
            groups@.len() == addrs@.len(),
            forall|g: int|
                0 <= g < groups@.len() ==> strictly_sorted(views(#[trigger] groups@[g]@)) && views(
                    groups@[g]@,
                ).to_set() == alias_hosts(lv.subrange(0, i as int), addrs@[g]),
        decreases preserved_lines@.len() - i,
    {
        let ghost pre = lv.subrange(0, i as int);
        let ghost cur = lv.subrange(0, i + 1);
        assert(cur =~= pre.push(lv[i as int]));
        assert(cur.drop_last() =~= pre);
        assert(lv[i as int] == preserved_lines@[i as int]@);
        match &preserved_lines[i] {
            PreservedLine::LocalhostEntry { ip, hostname } => {
                let ip = *ip;
                assert(lv[i as int] == LineView::Alias(ip, hostname@));
                let mut g: usize = 0;
                while g < addrs.len() && addrs[g] != ip
                    invariant
                        g <= addrs@.len(),
                        forall|q: int| 0 <= q < g ==> addrs@[q] != ip,
                    decreases addrs@.len() - g,
                {
                    g = g + 1;
                }
                let ghost old_groups = groups@;
                if g < addrs.len() {
                    let mut h = groups.remove(g);
                    assert(h == old_groups[g as int]);
                    insert_sorted(&mut h, hostname.clone());
                    let ghost hv = h;
                    groups.insert(g, h);
                    assert(groups@ == old_groups.remove(g as int).insert(g as int, hv));
                    assert(groups@[g as int] == hv);
                    assert(forall|b: int| 0 <= b < groups@.len() && b != g ==> groups@[b] == old_groups[b]);
                    assert(addrs@[g as int] == ip);
                    assert(addrs@.contains(ip));
                    assert(alias_addrs(cur) == alias_addrs(pre));
                } else {
                    assert(!addrs@.contains(ip));
                    let mut h: Vec<String> = Vec::new();
                    assert(views(h@).to_set() =~= Set::<Seq<char>>::empty());
                    insert_sorted(&mut h, hostname.clone());
                    let ghost hv = h;
                    addrs.push(ip);
                    groups.push(h);
                    assert(groups@ == old_groups.push(hv));
                    assert(alias_addrs(cur) == alias_addrs(pre).push(ip));
                    assert(alias_hosts(pre, ip) =~= Set::<Seq<char>>::empty()) by {
                        assert forall|x: Seq<char>| !alias_hosts(pre, ip).contains(x) by {
                            if alias_hosts(pre, ip).contains(x) {
                                let q = choose|q: int| 0 <= q < pre.len() && pre[q] == LineView::Alias(ip, x);
                                lemma_alias_addrs_has(pre, q);
                            }
                        }
                    }
                }
                proof {
                    assert forall|b: int| 0 <= b < groups@.len() implies strictly_sorted(
                        views(#[trigger] groups@[b]@),
                    ) && views(groups@[b]@).to_set() == alias_hosts(cur, addrs@[b]) by {
                        lemma_alias_hosts_push(pre, lv[i as int], addrs@[b]);
                        if b != g {
                            assert(groups@[b] == old_groups[b]);
                            assert(addrs@[b] != addrs@[g as int]);
                        }
                    }
                }
            },
            _ => {
                proof {
                    assert(alias_addrs(cur) == alias_addrs(pre));
                    assert forall|b: IpAddress| #[trigger] alias_hosts(cur, b) == alias_hosts(pre, b) by {
                        lemma_alias_hosts_push(pre, lv[i as int], b);
                    }
                }
            },
        }
        i = i + 1;
    }
    assert(lv.subrange(0, lv.len() as int) =~= lv);
    let mut out: Vec<char> = Vec::new();
    let mut emitted: Vec<IpAddress> = Vec::new();
    let mut i: usize = 0;
    while i < preserved_lines.len()
        invariant
            lv == line_views(preserved_lines@),
            i <= preserved_lines@.len(),
            addrs@ == alias_addrs(lv),
            groups@.len() == addrs@.len(),
            forall|q: int|
                0 <= q < groups@.len() ==> strictly_sorted(views(#[trigger] groups@[q]@)) && views(
                    groups@[q]@,
                ).to_set() == alias_hosts(lv, addrs@[q]),
            emitted@ == alias_addrs(lv.subrange(0, i as int)),
            out@ == join_lines(body_lines(lv, i as int), '\n'),
        decreases preserved_lines@.len() - i,
    {
        let ghost pre = lv.subrange(0, i as int);
        let ghost cur = lv.subrange(0, i + 1);
        assert(cur.drop_last() =~= pre);
        assert(lv[i as int] == preserved_lines@[i as int]@);
        let ghost before = body_lines(lv, i as int);
        match &preserved_lines[i] {
            PreservedLine::Comment(t) => {
                push_chars(&mut out, t.as_str());
                out.push('\n');
                assert(before.push(t@).drop_last() =~= before);
            },
            PreservedLine::NonLocalhostEntry(t) => {
                push_chars(&mut out, t.as_str());
                out.push('\n');
                assert(before.push(t@).drop_last() =~= before);
            },
            PreservedLine::LocalhostEntry { ip, hostname } => {
                let ip = *ip;
                if !contains_address(&emitted, ip) {
                    proof {
                        lemma_alias_addrs_has(lv, i as int);
                    }
                    let mut g: usize = 0;
                    while g < addrs.len() && addrs[g] != ip
                        invariant
                            g <= addrs@.len(),
                            forall|q: int| 0 <= q < g ==> addrs@[q] != ip,
                        decreases addrs@.len() - g,
                    {
                        g = g + 1;
                    }
                    assert(g < addrs@.len());
                    push_record(&mut out, ip, &groups[g]);
                    emitted.push(ip);
                    proof {
                        lemma_sorted_of(views(groups@[g as int]@));
                        let rec = record_text(ip, sorted_of(alias_hosts(lv, ip)));
                        assert(before.push(rec).drop_last() =~= before);
                    }
                }
            },
        }
        i = i + 1;
    }
    let ghost body = body_lines(lv, lv.len() as int);
    let ghost m = views(blocking@).to_set();
    if blocking.len() > 0 {
        push_record(&mut out, IpAddress::V4(127, 0, 0, 1), blocking);
        proof {
            lemma_sorted_of(views(blocking@));
            assert(m.contains(views(blocking@)[0]));
            assert(m != Set::<Seq<char>>::empty());
            let w = body + blocking_records(m);
            assert(w.drop_last() =~= body);
        }
    } else {
        assert(m =~= Set::<Seq<char>>::empty());
        assert(body + blocking_records(m) =~= body);
    }
    text_of(out.as_slice())
}

/// An index of an alias's address in `alias_addrs`.
pub(crate) proof fn lemma_alias_addrs_has(lines: Seq<LineView>, q: int)
    requires
        0 <= q < lines.len(),
        lines[q] is Alias,
    ensures
        alias_addrs(lines).contains(lines[q]->Alias_0),
    decreases lines.len(),
{
    if q < lines.len() - 1 {
        assert(lines.drop_last()[q] == lines[q]);
        lemma_alias_addrs_has(lines.drop_last(), q);
        let r = alias_addrs(lines.drop_last());
        let k = choose|k: int| 0 <= k < r.len() && r[k] == lines[q]->Alias_0;
        match lines.last() {
            LineView::Alias(a, _) => if !r.contains(a) {
                assert(r.push(a)[k] == lines[q]->Alias_0);
            },
            _ => {},
        }
    } else {
        let r = alias_addrs(lines.drop_last());
        if !r.contains(lines[q]->Alias_0) {
            assert(r.push(lines[q]->Alias_0)[r.len() as int] == lines[q]->Alias_0);
        }
    }
}

} // verus!
