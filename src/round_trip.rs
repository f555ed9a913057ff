use vstd::prelude::*;

use crate::addr::{
    address_text, dec_text, dec_value, digit_char, digit_value, double_colon_at, group_list,
    group_text, hex_value, is_digit, is_loopback, octet_text, render, v4_text, v6_groups, v6_of,
    IpAddress,
};
use crate::domain::is_local;
use crate::hosts::{
    alias_addrs, alias_hosts, alias_lines, blocked_names, blocking_records, body_lines,
    canonical_loopback, classify, lemma_alias_addrs_has, lemma_alias_hosts_push, parse_lines,
    parse_text, record_text, serialize_text, LineKind, LineView, ParsedHosts,
};
use crate::text::{
    lemma_sorted_of, lemma_text_lt_total, lemma_text_lt_transitive, sorted_of, strictly_sorted,
    text_lt, views,
};
use crate::text::{is_blank, join_lines, join_words, split, tokens, trim, trim_end, trim_start};

verus! {

/// Not empty, and no blank at either end.
pub open spec fn is_trimmed(t: Seq<char>) -> bool {
    t.len() == 0 || (!is_blank(t[0]) && !is_blank(t.last()))
}

/// No blank and no line feed, and not empty.
pub open spec fn is_word(w: Seq<char>) -> bool {
    w.len() > 0 && forall|i: int| 0 <= i < w.len() ==> !is_blank(#[trigger] w[i]) && w[i] != '\n'
}

pub open spec fn no_feed(s: Seq<char>) -> bool {
    !s.contains('\n')
}

proof fn lemma_split_pieces(s: Seq<char>, c: char)
    ensures
        forall|k: int| 0 <= k < split(s, c).len() ==> !(#[trigger] split(s, c)[k]).contains(c),
        split(s, c).len() >= 1,
    decreases s.len(),
{
    if s.len() > 0 {
        lemma_split_pieces(s.drop_last(), c);
        let r = split(s.drop_last(), c);
        if s.last() != c {
            let l = r.last().push(s.last());
            assert forall|k: int| 0 <= k < split(s, c).len() implies !(#[trigger] split(s, c)[k]).contains(c) by {
                if k == r.len() - 1 {
                    assert(split(s, c)[k] == l);
                    if l.contains(c) {
                        let j = choose|j: int| 0 <= j < l.len() && l[j] == c;
                        assert(r.last()[j] == c);
                    }
                } else {
                    assert(split(s, c)[k] == r[k]);
                }
            }
        } else {
            assert forall|k: int| 0 <= k < split(s, c).len() implies !(#[trigger] split(s, c)[k]).contains(c) by {
                if k < r.len() {
                    assert(split(s, c)[k] == r[k]);
                }
            }
        }
    }
}

proof fn lemma_trim_start_suffix(s: Seq<char>)
    ensures
        exists|k: int| 0 <= k <= s.len() && trim_start(s) == s.subrange(k, s.len() as int),
        trim_start(s).len() > 0 ==> !is_blank(trim_start(s)[0]),
    decreases s.len(),
{
    if s.len() > 0 && is_blank(s[0]) {
        lemma_trim_start_suffix(s.drop_first());
        let k = choose|k: int|
            0 <= k <= s.drop_first().len() && trim_start(s.drop_first()) == s.drop_first().subrange(
                k,
                s.drop_first().len() as int,
            );
        assert(s.drop_first().subrange(k, s.drop_first().len() as int) =~= s.subrange(k + 1, s.len() as int));
    } else {
        assert(s.subrange(0, s.len() as int) =~= s);
    }
}

proof fn lemma_trim_end_prefix(s: Seq<char>)
    ensures
        exists|k: int| 0 <= k <= s.len() && trim_end(s) == s.subrange(0, k),
        trim_end(s).len() > 0 ==> !is_blank(trim_end(s).last()),
    decreases s.len(),
{
    if s.len() > 0 && is_blank(s.last()) {
        lemma_trim_end_prefix(s.drop_last());
        let k = choose|k: int| 0 <= k <= s.drop_last().len() && trim_end(s.drop_last()) == s.drop_last().subrange(0, k);
        assert(s.drop_last().subrange(0, k) =~= s.subrange(0, k));
    } else {
        assert(s.subrange(0, s.len() as int) =~= s);
    }
}

/// A trimmed text is trimmed, and holds only characters of the text it came from.
proof fn lemma_trim_facts(s: Seq<char>)
    ensures
        is_trimmed(trim(s)),
        no_feed(s) ==> no_feed(trim(s)),
{
    lemma_trim_start_suffix(s);
    let u = trim_start(s);
    lemma_trim_end_prefix(u);
    let k1 = choose|k: int| 0 <= k <= s.len() && trim_start(s) == s.subrange(k, s.len() as int);
    let k2 = choose|k: int| 0 <= k <= u.len() && trim_end(u) == u.subrange(0, k);
    let t = trim(s);
    if t.len() > 0 {
        assert(t[0] == u[0]);
    }
    if no_feed(s) && t.contains('\n') {
        let j = choose|j: int| 0 <= j < t.len() && t[j] == '\n';
        assert(u[j] == '\n');
        assert(s[k1 + j] == '\n');
    }
}

proof fn lemma_trimmed_is_fixed(t: Seq<char>)
    requires
        is_trimmed(t),
    ensures
        trim(t) == t,
{
}

/// Trimming twice is trimming once.
proof fn lemma_trim_idempotent(s: Seq<char>)
    ensures
        trim(trim(s)) == trim(s),
{
    lemma_trim_facts(s);
    lemma_trimmed_is_fixed(trim(s));
}

/// A line classifies as its trimmed self does.
pub proof fn lemma_classify_trim(s: Seq<char>)
    ensures
        classify(trim(s)) == classify(s),
{
    lemma_trim_idempotent(s);
}

/// Every token is a word of the text it came from.
proof fn lemma_tokens_are_words(s: Seq<char>)
    requires
        no_feed(s),
    ensures
        forall|k: int| 0 <= k < tokens(s).len() ==> is_word(#[trigger] tokens(s)[k]),
        s.len() > 0 && !is_blank(s.last()) ==> tokens(s).len() > 0,
    decreases s.len(),
{
    if s.len() > 0 {
        let p = s.drop_last();
        assert(no_feed(p)) by {
            if p.contains('\n') {
                let j = choose|j: int| 0 <= j < p.len() && p[j] == '\n';
                assert(s[j] == '\n');
            }
        }
        lemma_tokens_are_words(p);
        let r = tokens(p);
        let c = s.last();
        assert(c != '\n') by {
            assert(s[s.len() - 1] == c);
        }
        if !is_blank(c) {
            if s.len() > 1 && !is_blank(s[s.len() - 2]) {
                assert(p.last() == s[s.len() - 2]);
                let l = r.last().push(c);
                assert forall|k: int| 0 <= k < tokens(s).len() implies is_word(#[trigger] tokens(s)[k]) by {
                    if k == r.len() - 1 {
                        assert(tokens(s)[k] == l);
                        assert forall|i: int| 0 <= i < l.len() implies !is_blank(#[trigger] l[i]) && l[i] != '\n' by {
                            if i < l.len() - 1 {
                                assert(l[i] == r.last()[i]);
                                assert(is_word(r[r.len() - 1]));
                            }
                        }
                    } else {
                        assert(tokens(s)[k] == r[k]);
                    }
                }
            } else {
                assert forall|k: int| 0 <= k < tokens(s).len() implies is_word(#[trigger] tokens(s)[k]) by {
                    if k < r.len() {
                        assert(tokens(s)[k] == r[k]);
                    } else {
                        assert(tokens(s)[k] == seq![c]);
                    }
                }
            }
        }
    }
}

proof fn lemma_split_append(a: Seq<char>, b: Seq<char>, c: char)
    requires
        !b.contains(c),
    ensures
        split(a + b, c) == split(a, c).update(split(a, c).len() - 1, split(a, c).last() + b),
    decreases b.len(),
{
    lemma_split_pieces(a, c);
    let sa = split(a, c);
    if b.len() == 0 {
        assert(a + b =~= a);
        assert(sa.last() + b =~= sa.last());
        assert(sa.update(sa.len() - 1, sa.last() + b) =~= sa);
    } else {
        let b1 = b.drop_last();
        assert(!b1.contains(c)) by {
            if b1.contains(c) {
                let j = choose|j: int| 0 <= j < b1.len() && b1[j] == c;
                assert(b[j] == c);
            }
        }
        lemma_split_append(a, b1, c);
        assert((a + b).drop_last() =~= a + b1);
        assert((a + b).last() == b.last());
        assert(b.last() != c) by {
            assert(b[b.len() - 1] == b.last());
        }
        assert((sa.last() + b1).push(b.last()) =~= sa.last() + b);
        assert(sa.update(sa.len() - 1, sa.last() + b1).update(sa.len() - 1, (sa.last() + b1).push(b.last()))
            =~= sa.update(sa.len() - 1, sa.last() + b));
    }
}

proof fn lemma_split_push_sep(a: Seq<char>, c: char)
    ensures
        split(a.push(c), c) == split(a, c).push(Seq::<char>::empty()),
{
    assert(a.push(c).drop_last() =~= a);
}

/// Lines joined by line feeds split back into those lines, and an empty last piece.
pub proof fn lemma_split_join(lines: Seq<Seq<char>>)
    requires
        forall|k: int| 0 <= k < lines.len() ==> no_feed(#[trigger] lines[k]),
    ensures
        split(join_lines(lines, '\n'), '\n') == lines.push(Seq::<char>::empty()),
    decreases lines.len(),
{
    if lines.len() == 0 {
        assert(split(Seq::<char>::empty(), '\n') =~= seq![Seq::<char>::empty()]);
        assert(lines.push(Seq::<char>::empty()) =~= seq![Seq::<char>::empty()]);
    } else {
        let front = lines.drop_last();
        let l = lines.last();
        assert forall|k: int| 0 <= k < front.len() implies no_feed(#[trigger] front[k]) by {
            assert(front[k] == lines[k]);
        }
        lemma_split_join(front);
        let j = join_lines(front, '\n');
        assert(join_lines(lines, '\n') == j + l.push('\n'));
        assert(j + l.push('\n') =~= (j + l).push('\n'));
        lemma_split_push_sep(j + l, '\n');
        assert(no_feed(lines[lines.len() - 1]));
        lemma_split_append(j, l, '\n');
        let sj = front.push(Seq::<char>::empty());
        assert(sj.update(sj.len() - 1, sj.last() + l) =~= lines);
    }
}

proof fn lemma_tokens_word(w: Seq<char>)
    requires
        is_word(w),
    ensures
        tokens(w) == seq![w],
    decreases w.len(),
{
    let c = w.last();
    assert(!is_blank(w[w.len() - 1]));
    if w.len() == 1 {
        assert(w.drop_last() =~= Seq::<char>::empty());
        assert(tokens(w.drop_last()) =~= Seq::<Seq<char>>::empty());
        assert(seq![c] =~= w);
        assert(Seq::<Seq<char>>::empty().push(seq![c]) =~= seq![w]);
    } else {
        let w1 = w.drop_last();
        assert(is_word(w1)) by {
            assert forall|i: int| 0 <= i < w1.len() implies !is_blank(#[trigger] w1[i]) && w1[i] != '\n' by {
                assert(w1[i] == w[i]);
            }
        }
        lemma_tokens_word(w1);
        assert(!is_blank(w[w.len() - 2]));
        assert(w1.push(c) =~= w);
        assert(seq![w1].update(0, w1.push(c)) =~= seq![w]);
    }
}

proof fn lemma_tokens_space_word(x: Seq<char>, w: Seq<char>)
    requires
        is_word(w),
    ensures
        tokens(x.push(' ') + w) == tokens(x).push(w),
    decreases w.len(),
{
    let s = x.push(' ') + w;
    let c = w.last();
    assert(!is_blank(w[w.len() - 1]));
    assert(s.last() == c);
    assert(x.push(' ').drop_last() =~= x);
    assert(tokens(x.push(' ')) == tokens(x));
    if w.len() == 1 {
        assert(s.drop_last() =~= x.push(' '));
        assert(s[s.len() - 2] == ' ');
        assert(seq![c] =~= w);
    } else {
        let w1 = w.drop_last();
        assert(is_word(w1)) by {
            assert forall|i: int| 0 <= i < w1.len() implies !is_blank(#[trigger] w1[i]) && w1[i] != '\n' by {
                assert(w1[i] == w[i]);
            }
        }
        lemma_tokens_space_word(x, w1);
        assert(s.drop_last() =~= x.push(' ') + w1);
        assert(s[s.len() - 2] == w[w.len() - 2]);
        assert(!is_blank(w[w.len() - 2]));
        assert(w1.push(c) =~= w);
        assert(tokens(x).push(w1).update(tokens(x).len() as int, w1.push(c)) =~= tokens(x).push(w));
    }
}

/// Words joined by single spaces tokenize back into those words.
pub proof fn lemma_tokens_join(ws: Seq<Seq<char>>)
    requires
        ws.len() >= 1,
        forall|k: int| 0 <= k < ws.len() ==> is_word(#[trigger] ws[k]),
    ensures
        tokens(join_words(ws, ' ')) == ws,
        is_trimmed(join_words(ws, ' ')),
        join_words(ws, ' ').len() > 0 && join_words(ws, ' ')[0] == ws[0][0],
        no_feed(join_words(ws, ' ')),
    decreases ws.len(),
{
    assert(is_word(ws[0]));
    if ws.len() == 1 {
        lemma_tokens_word(ws[0]);
        assert(seq![ws[0]] =~= ws);
        assert(!is_blank(ws[0][ws[0].len() - 1]));
        assert(no_feed(ws[0])) by {
            if ws[0].contains('\n') {
                let j = choose|j: int| 0 <= j < ws[0].len() && ws[0][j] == '\n';
            }
        }
    } else {
        let front = ws.drop_last();
        let w = ws.last();
        assert(is_word(ws[ws.len() - 1]));
        assert forall|k: int| 0 <= k < front.len() implies is_word(#[trigger] front[k]) by {
            assert(front[k] == ws[k]);
        }
        lemma_tokens_join(front);
        lemma_tokens_space_word(join_words(front, ' '), w);
        assert(front.push(w) =~= ws);
        let j = join_words(ws, ' ');
        let jf = join_words(front, ' ');
        assert(j == jf.push(' ') + w);
        assert(j[0] == jf[0]);
        assert(j.last() == w.last());
        assert(!is_blank(w[w.len() - 1]));
        assert(no_feed(j)) by {
            if j.contains('\n') {
                let i = choose|i: int| 0 <= i < j.len() && j[i] == '\n';
                if i < jf.len() {
                    assert(jf[i] == '\n');
                } else if i > jf.len() {
                    assert(w[i - jf.len() - 1] == '\n');
                }
            }
        }
    }
}

proof fn lemma_digit(d: int)
    requires
        0 <= d < 10,
    ensures
        is_digit(digit_char(d)),
        digit_value(digit_char(d)) == d,
        !is_blank(digit_char(d)),
        digit_char(d) != '\n' && digit_char(d) != '.' && digit_char(d) != '#' && digit_char(d) != ':',
        d > 0 ==> digit_char(d) != '0',
{
}

/// A decimal octet is written as a dotted-quad field reads it back.
proof fn lemma_dec_octet(n: nat)
    requires
        n <= 255,
    ensures
        octet_text(dec_text(n)) == Some(n as u8),
        is_word(dec_text(n)),
        !dec_text(n).contains('.'),
        is_digit(dec_text(n)[0]),
{
    reveal_with_fuel(dec_text, 3);
    reveal_with_fuel(dec_value, 4);
    let t = dec_text(n);
    if n < 10 {
        lemma_digit(n as int);
        assert(t =~= seq![digit_char(n as int)]);
        assert(t.drop_last() =~= Seq::<char>::empty());
    } else if n < 100 {
        lemma_digit((n / 10) as int);
        lemma_digit((n % 10) as int);
        assert(t =~= seq![digit_char((n / 10) as int), digit_char((n % 10) as int)]);
        assert(t.drop_last() =~= seq![digit_char((n / 10) as int)]);
        assert(t.drop_last().drop_last() =~= Seq::<char>::empty());
    } else {
        lemma_digit((n / 100) as int);
        lemma_digit(((n / 10) % 10) as int);
        lemma_digit((n % 10) as int);
        assert((n / 10) / 10 == n / 100);
        assert(t =~= seq![digit_char((n / 100) as int), digit_char(((n / 10) % 10) as int), digit_char((n % 10) as int)]);
        assert(t.drop_last() =~= seq![digit_char((n / 100) as int), digit_char(((n / 10) % 10) as int)]);
        assert(t.drop_last().drop_last() =~= seq![digit_char((n / 100) as int)]);
        assert(t.drop_last().drop_last().drop_last() =~= Seq::<char>::empty());
    }
    assert forall|i: int| 0 <= i < t.len() implies is_digit(#[trigger] t[i]) && !is_blank(t[i]) && t[i]
        != '\n' && t[i] != '.' by {}
    if t.contains('.') {
        let j = choose|j: int| 0 <= j < t.len() && t[j] == '.';
    }
}

proof fn lemma_split_single(s: Seq<char>, c: char)
    requires
        !s.contains(c),
    ensures
        split(s, c) == seq![s],
{
    lemma_split_append(Seq::<char>::empty(), s, c);
    assert(Seq::<char>::empty() + s =~= s);
    assert(seq![Seq::<char>::empty()].update(0, Seq::<char>::empty() + s) =~= seq![s]);
}

proof fn lemma_split_field(a: Seq<char>, b: Seq<char>, c: char)
    requires
        !b.contains(c),
    ensures
        split(a + seq![c] + b, c) == split(a, c).push(b),
{
    assert(a + seq![c] =~= a.push(c));
    lemma_split_push_sep(a, c);
    lemma_split_append(a + seq![c], b, c);
    let sp = split(a, c).push(Seq::<char>::empty());
    assert(sp.update(sp.len() - 1, sp.last() + b) =~= split(a, c).push(b));
}

/// A rendered loopback address reads back as itself, and is one word.
pub proof fn lemma_render_loopback(a: IpAddress)
    requires
        is_loopback(a),
    ensures
        address_text(render(a)) == Some(a),
        is_word(render(a)),
        render(a)[0] != '#',
{
    match a {
        IpAddress::V4(a0, b, c, d) => {
            lemma_dec_octet(a0 as nat);
            lemma_dec_octet(b as nat);
            lemma_dec_octet(c as nat);
            lemma_dec_octet(d as nat);
            let (da, db, dc, dd) = (dec_text(a0 as nat), dec_text(b as nat), dec_text(c as nat), dec_text(d as nat));
            let s = render(a);
            assert(s == da + seq!['.'] + db + seq!['.'] + dc + seq!['.'] + dd);
            lemma_split_single(da, '.');
            lemma_split_field(da, db, '.');
            lemma_split_field(da + seq!['.'] + db, dc, '.');
            lemma_split_field(da + seq!['.'] + db + seq!['.'] + dc, dd, '.');
            assert(split(s, '.') =~= seq![da, db, dc, dd]);
            assert(s[0] == da[0]);
            assert forall|i: int| 0 <= i < s.len() implies !is_blank(#[trigger] s[i]) && s[i] != '\n' by {
                let l1 = da.len() as int;
                let l2 = l1 + 1 + db.len();
                let l3 = l2 + 1 + dc.len();
                if i < l1 {
                    assert(s[i] == da[i]);
                } else if i == l1 || i == l2 || i == l3 {
                } else if i < l2 {
                    assert(s[i] == db[i - l1 - 1]);
                } else if i < l3 {
                    assert(s[i] == dc[i - l2 - 1]);
                } else {
                    assert(s[i] == dd[i - l3 - 1]);
                }
            }
        },
        IpAddress::V6(a0, b, c, d, e, f, g, h) => {
            let s = render(a);
            let tail: Seq<char> = if h == 1 {
                seq!['1']
            } else {
                Seq::<char>::empty()
            };
            assert(s =~= seq![':', ':'] + tail);
            assert(!s.contains('.')) by {
                if s.contains('.') {
                    let j = choose|j: int| 0 <= j < s.len() && s[j] == '.';
                }
            }
            lemma_split_single(s, '.');
            assert(v4_text(s) is None);
            assert(double_colon_at(s, 0) == 0);
            assert(s.subrange(0, 0) =~= Seq::<char>::empty());
            assert(s.subrange(2, s.len() as int) =~= tail);
            let hg = group_list(Seq::<char>::empty());
            assert(hg == Some(Seq::<u16>::empty()));
            if h == 1 {
                assert(!tail.contains(':')) by {
                    if tail.contains(':') {
                        let j = choose|j: int| 0 <= j < tail.len() && tail[j] == ':';
                    }
                }
                lemma_split_single(tail, ':');
                reveal_with_fuel(hex_value, 2);
                assert(tail.drop_last() =~= Seq::<char>::empty());
                assert(group_text(tail) == Some(1u16));
                assert(group_list(tail) == Some(seq![1u16])) by {
                    assert(seq![tail].map_values(|g: Seq<char>| group_text(g)->0) =~= seq![1u16]);
                }
                let groups = Seq::<u16>::empty() + Seq::new(7, |i: int| 0u16) + seq![1u16];
                assert(v6_groups(s) == Some(groups));
                assert(v6_of(groups) == a);
            } else {
                let groups = Seq::<u16>::empty() + Seq::new(8, |i: int| 0u16) + Seq::<u16>::empty();
                assert(v6_groups(s) == Some(groups));
                assert(v6_of(groups) == a);
            }
        },
    }
}

/// A record of a loopback address and words reads back as that record.
pub proof fn lemma_record_classify(a: IpAddress, hs: Seq<Seq<char>>)
    requires
        is_loopback(a),
        hs.len() >= 1,
        forall|k: int| 0 <= k < hs.len() ==> is_word(#[trigger] hs[k]),
    ensures
        classify(record_text(a, hs)) == LineKind::Loopback(a, hs),
        no_feed(record_text(a, hs)),
{
    lemma_render_loopback(a);
    let ws = seq![render(a)] + hs;
    assert forall|k: int| 0 <= k < ws.len() implies is_word(#[trigger] ws[k]) by {
        if k > 0 {
            assert(ws[k] == hs[k - 1]);
        }
    }
    lemma_tokens_join(ws);
    let r = record_text(a, hs);
    lemma_trimmed_is_fixed(r);
    assert(ws[0] == render(a));
    assert(ws.drop_first() =~= hs);
}

/// What the parser leaves in a kept line: a comment or foreign record that reads back as
/// itself, or a loopback address with one word naming this machine.
pub open spec fn line_ok(l: LineView) -> bool {
    match l {
        LineView::Comment(t) => classify(t) == LineKind::Note(t) && no_feed(t),
        LineView::Foreign(t) => classify(t) == LineKind::Foreign(t) && no_feed(t),
        LineView::Alias(a, h) => is_loopback(a) && is_local(h) && is_word(h),
    }
}

/// What the parser leaves: blocked words that do not name this machine, and kept lines as above.
pub open spec fn doc_ok(m: Set<Seq<char>>, p: Seq<LineView>) -> bool {
    &&& forall|x: Seq<char>| #[trigger] m.contains(x) ==> is_word(x) && !is_local(x)
    &&& forall|k: int| 0 <= k < p.len() ==> line_ok(#[trigger] p[k])
}

proof fn lemma_blocked_names_ok(hs: Seq<Seq<char>>)
    requires
        forall|k: int| 0 <= k < hs.len() ==> is_word(#[trigger] hs[k]),
    ensures
        forall|x: Seq<char>| #[trigger] blocked_names(hs).contains(x) ==> is_word(x) && !is_local(x),
    decreases hs.len(),
{
    if hs.len() > 0 {
        assert forall|k: int| 0 <= k < hs.drop_last().len() implies is_word(#[trigger] hs.drop_last()[k]) by {
            assert(hs.drop_last()[k] == hs[k]);
        }
        lemma_blocked_names_ok(hs.drop_last());
        assert(is_word(hs[hs.len() - 1]));
        assert forall|x: Seq<char>| #[trigger] blocked_names(hs).contains(x) implies is_word(x) && !is_local(x) by {
            if x != hs.last() {
                assert(blocked_names(hs.drop_last()).contains(x));
            }
        }
    }
}

proof fn lemma_alias_lines_ok(a: IpAddress, hs: Seq<Seq<char>>)
    requires
        is_loopback(a),
        forall|k: int| 0 <= k < hs.len() ==> is_word(#[trigger] hs[k]),
    ensures
        forall|k: int| 0 <= k < alias_lines(a, hs).len() ==> line_ok(#[trigger] alias_lines(a, hs)[k]),
    decreases hs.len(),
{
    if hs.len() > 0 {
        assert forall|k: int| 0 <= k < hs.drop_last().len() implies is_word(#[trigger] hs.drop_last()[k]) by {
            assert(hs.drop_last()[k] == hs[k]);
        }
        lemma_alias_lines_ok(a, hs.drop_last());
        assert(is_word(hs[hs.len() - 1]));
        let r = alias_lines(a, hs.drop_last());
        assert forall|k: int| 0 <= k < alias_lines(a, hs).len() implies line_ok(#[trigger] alias_lines(a, hs)[k]) by {
            if k < r.len() {
                assert(alias_lines(a, hs)[k] == r[k]);
            }
        }
    }
}

/// The parser leaves well-formed documents.
proof fn lemma_parse_lines_ok(lines: Seq<Seq<char>>)
    requires
        forall|k: int| 0 <= k < lines.len() ==> no_feed(#[trigger] lines[k]),
    ensures
        parse_lines(lines) is Ok ==> doc_ok(parse_lines(lines)->Ok_0.0, parse_lines(lines)->Ok_0.1),
    decreases lines.len(),
{
    if lines.len() > 0 {
        let front = lines.drop_last();
        assert forall|k: int| 0 <= k < front.len() implies no_feed(#[trigger] front[k]) by {
            assert(front[k] == lines[k]);
        }
        lemma_parse_lines_ok(front);
        let l = lines.last();
        assert(no_feed(lines[lines.len() - 1]));
        lemma_classify_trim(l);
        lemma_trim_facts(l);
        if parse_lines(front) is Ok {
            let m = parse_lines(front)->Ok_0.0;
            let p = parse_lines(front)->Ok_0.1;
            match classify(l) {
                LineKind::Note(t) => {
                    assert forall|k: int| 0 <= k < p.push(LineView::Comment(t)).len() implies line_ok(
                        #[trigger] p.push(LineView::Comment(t))[k],
                    ) by {
                        if k < p.len() {
                            assert(p.push(LineView::Comment(t))[k] == p[k]);
                        }
                    }
                },
                LineKind::Foreign(t) => {
                    assert forall|k: int| 0 <= k < p.push(LineView::Foreign(t)).len() implies line_ok(
                        #[trigger] p.push(LineView::Foreign(t))[k],
                    ) by {
                        if k < p.len() {
                            assert(p.push(LineView::Foreign(t))[k] == p[k]);
                        }
                    }
                },
                LineKind::Loopback(a, hs) => {
                    let t = trim(l);
                    lemma_tokens_are_words(t);
                    assert forall|k: int| 0 <= k < hs.len() implies is_word(#[trigger] hs[k]) by {
                        assert(hs[k] == tokens(t)[k + 1]);
                    }
                    lemma_blocked_names_ok(hs);
                    lemma_alias_lines_ok(a, hs);
                    let q = p + alias_lines(a, hs);
                    assert forall|k: int| 0 <= k < q.len() implies line_ok(#[trigger] q[k]) by {
                        if k < p.len() {
                            assert(q[k] == p[k]);
                        } else {
                            assert(q[k] == alias_lines(a, hs)[k - p.len()]);
                        }
                    }
                },
                _ => {},
            }
        }
    }
}

/// Whatever a text parses into is well formed.
pub proof fn lemma_parse_ok(text: Seq<char>)
    ensures
        crate::hosts::parse_text(text) is Ok ==> doc_ok(
            crate::hosts::parse_text(text)->Ok_0.0,
            crate::hosts::parse_text(text)->Ok_0.1,
        ),
{
    lemma_split_pieces(text, '\n');
    let lines = split(text, '\n');
    assert forall|k: int| 0 <= k < lines.len() implies no_feed(#[trigger] lines[k]) by {}
    lemma_parse_lines_ok(lines);
}

/// The kept lines that are not aliases, in order.
pub open spec fn kept_plain(lines: Seq<LineView>) -> Seq<LineView>
    decreases lines.len(),
{
    if lines.len() == 0 {
        Seq::empty()
    } else {
        let r = kept_plain(lines.drop_last());
        match lines.last() {
            LineView::Alias(_, _) => r,
            l => r.push(l),
        }
    }
}

/// The (address, name) pairs of the aliases among kept lines.
pub open spec fn alias_pairs(lines: Seq<LineView>) -> Set<(IpAddress, Seq<char>)> {
    Set::new(|pr: (IpAddress, Seq<char>)| exists|i: int| 0 <= i < lines.len() && lines[i] == LineView::Alias(pr.0, pr.1))
}

proof fn lemma_record_names_local(a: IpAddress, hs: Seq<Seq<char>>)
    requires
        forall|k: int| 0 <= k < hs.len() ==> is_local(#[trigger] hs[k]),
    ensures
        blocked_names(hs) == Set::<Seq<char>>::empty(),
        alias_lines(a, hs) == hs.map_values(|h: Seq<char>| LineView::Alias(a, h)),
    decreases hs.len(),
{
    if hs.len() == 0 {
        assert(hs.map_values(|h: Seq<char>| LineView::Alias(a, h)) =~= Seq::<LineView>::empty());
    } else {
        assert forall|k: int| 0 <= k < hs.drop_last().len() implies is_local(#[trigger] hs.drop_last()[k]) by {
            assert(hs.drop_last()[k] == hs[k]);
        }
        lemma_record_names_local(a, hs.drop_last());
        assert(is_local(hs[hs.len() - 1]));
        assert(hs.drop_last().map_values(|h: Seq<char>| LineView::Alias(a, h)).push(LineView::Alias(a, hs.last()))
            =~= hs.map_values(|h: Seq<char>| LineView::Alias(a, h)));
    }
}

proof fn lemma_record_names_blocked(a: IpAddress, hs: Seq<Seq<char>>)
    requires
        forall|k: int| 0 <= k < hs.len() ==> !is_local(#[trigger] hs[k]),
    ensures
        blocked_names(hs) == hs.to_set(),
        alias_lines(a, hs) == Seq::<LineView>::empty(),
    decreases hs.len(),
{
    if hs.len() == 0 {
        assert(hs.to_set() =~= Set::<Seq<char>>::empty());
    } else {
        assert forall|k: int| 0 <= k < hs.drop_last().len() implies !is_local(#[trigger] hs.drop_last()[k]) by {
            assert(hs.drop_last()[k] == hs[k]);
        }
        lemma_record_names_blocked(a, hs.drop_last());
        assert(!is_local(hs[hs.len() - 1]));
        assert(hs.drop_last().to_set().insert(hs.last()) =~= hs.to_set()) by {
            assert forall|x: Seq<char>| hs.to_set().contains(x) implies hs.drop_last().to_set().insert(hs.last()).contains(x) by {
                let k = choose|k: int| 0 <= k < hs.len() && hs[k] == x;
                if k < hs.len() - 1 {
                    assert(hs.drop_last()[k] == x);
                }
            }
            assert forall|x: Seq<char>| hs.drop_last().to_set().insert(hs.last()).contains(x) implies hs.to_set().contains(x) by {
                if x == hs.last() {
                    assert(hs[hs.len() - 1] == x);
                } else {
                    let k = choose|k: int| 0 <= k < hs.drop_last().len() && hs.drop_last()[k] == x;
                    assert(hs[k] == x);
                }
            }
        }
    }
}

proof fn lemma_kept_plain_aliases(x: Seq<LineView>, y: Seq<LineView>)
    requires
        forall|k: int| 0 <= k < y.len() ==> (#[trigger] y[k]) is Alias,
    ensures
        kept_plain(x + y) == kept_plain(x),
    decreases y.len(),
{
    if y.len() == 0 {
        assert(x + y =~= x);
    } else {
        assert forall|k: int| 0 <= k < y.drop_last().len() implies (#[trigger] y.drop_last()[k]) is Alias by {
            assert(y.drop_last()[k] == y[k]);
        }
        lemma_kept_plain_aliases(x, y.drop_last());
        assert((x + y).drop_last() =~= x + y.drop_last());
        assert((x + y).last() == y[y.len() - 1]);
    }
}

proof fn lemma_insert_listing(q: Seq<Seq<char>>, x: Seq<char>)
    requires
        strictly_sorted(q),
    ensures
        exists|r: Seq<Seq<char>>| strictly_sorted(r) && r.to_set() == q.to_set().insert(x),
    decreases q.len(),
{
    if q.contains(x) {
        assert(q.to_set().insert(x) =~= q.to_set());
    } else if q.len() == 0 {
        let r = seq![x];
        assert(r.to_set() =~= q.to_set().insert(x)) by {
            assert forall|y: Seq<char>| r.to_set().contains(y) implies q.to_set().insert(x).contains(y) by {
                let k = choose|k: int| 0 <= k < r.len() && r[k] == y;
            }
            assert(r[0] == x);
        }
    } else if text_lt(x, q[0]) {
        let r = seq![x] + q;
        assert forall|i: int, j: int| 0 <= i < j < r.len() implies text_lt(#[trigger] r[i], #[trigger] r[j]) by {
            if i == 0 {
                assert(r[j] == q[j - 1]);
                if j > 1 {
                    assert(text_lt(q[0], q[j - 1]));
                    lemma_text_lt_transitive(x, q[0], q[j - 1]);
                }
            } else {
                assert(r[i] == q[i - 1] && r[j] == q[j - 1]);
            }
        }
        assert(r.to_set() =~= q.to_set().insert(x)) by {
            assert forall|y: Seq<char>| r.to_set().contains(y) implies q.to_set().insert(x).contains(y) by {
                let k = choose|k: int| 0 <= k < r.len() && r[k] == y;
                if k > 0 {
                    assert(q[k - 1] == y);
                }
            }
            assert forall|y: Seq<char>| q.to_set().insert(x).contains(y) implies r.to_set().contains(y) by {
                if y == x {
                    assert(r[0] == y);
                } else {
                    let k = choose|k: int| 0 <= k < q.len() && q[k] == y;
                    assert(r[k + 1] == y);
                }
            }
        }
    } else {
        assert(q[0] != x);
        lemma_text_lt_total(x, q[0]);
        let q1 = q.drop_first();
        assert(strictly_sorted(q1)) by {
            assert forall|i: int, j: int| 0 <= i < j < q1.len() implies text_lt(#[trigger] q1[i], #[trigger] q1[j]) by {
                assert(q1[i] == q[i + 1] && q1[j] == q[j + 1]);
            }
        }
        lemma_insert_listing(q1, x);
        let r1 = choose|r: Seq<Seq<char>>| strictly_sorted(r) && r.to_set() == q1.to_set().insert(x);
        let r = seq![q[0]] + r1;
        assert forall|i: int, j: int| 0 <= i < j < r.len() implies text_lt(#[trigger] r[i], #[trigger] r[j]) by {
            if i == 0 {
                assert(r[j] == r1[j - 1]);
                assert(r1.to_set().contains(r1[j - 1]));
                if r1[j - 1] != x {
                    let k = choose|k: int| 0 <= k < q1.len() && q1[k] == r1[j - 1];
                    assert(q[k + 1] == r1[j - 1]);
                }
            } else {
                assert(r[i] == r1[i - 1] && r[j] == r1[j - 1]);
            }
        }
        assert(r.to_set() =~= q.to_set().insert(x)) by {
            assert forall|y: Seq<char>| r.to_set().contains(y) implies q.to_set().insert(x).contains(y) by {
                let k = choose|k: int| 0 <= k < r.len() && r[k] == y;
                if k == 0 {
                    assert(q[0] == y);
                } else {
                    assert(r1[k - 1] == y);
                    assert(r1.to_set().contains(y));
                    if y != x {
                        let m = choose|m: int| 0 <= m < q1.len() && q1[m] == y;
                        assert(q[m + 1] == y);
                    }
                }
            }
            assert forall|y: Seq<char>| q.to_set().insert(x).contains(y) implies r.to_set().contains(y) by {
                if y == q[0] {
                    assert(r[0] == y);
                } else {
                    if y != x {
                        let k = choose|k: int| 0 <= k < q.len() && q[k] == y;
                        assert(k > 0);
                        assert(q1[k - 1] == y);
                    }
                    assert(q1.to_set().insert(x).contains(y));
                    assert(r1.to_set().contains(y));
                    let m = choose|m: int| 0 <= m < r1.len() && r1[m] == y;
                    assert(r[m + 1] == y);
                }
            }
        }
    }
}

/// The names aliased to one address have an ascending listing.
proof fn lemma_alias_hosts_listing(p: Seq<LineView>, a: IpAddress)
    ensures
        strictly_sorted(sorted_of(alias_hosts(p, a))),
        sorted_of(alias_hosts(p, a)).to_set() == alias_hosts(p, a),
    decreases p.len(),
{
    if p.len() == 0 {
        assert(alias_hosts(p, a) =~= Set::<Seq<char>>::empty());
        let e = Seq::<Seq<char>>::empty();
        assert(e.to_set() =~= Set::<Seq<char>>::empty());
        assert(strictly_sorted(e) && e.to_set() == alias_hosts(p, a));
    } else {
        let front = p.drop_last();
        lemma_alias_hosts_listing(front, a);
        assert(front.push(p.last()) =~= p);
        lemma_alias_hosts_push(front, p.last(), a);
        let q = sorted_of(alias_hosts(front, a));
        match p.last() {
            LineView::Alias(b, h) => {
                if b == a {
                    lemma_insert_listing(q, h);
                } else {
                    assert(strictly_sorted(q) && q.to_set() == alias_hosts(p, a));
                }
            },
            _ => {
                assert(strictly_sorted(q) && q.to_set() == alias_hosts(p, a));
            },
        }
    }
}

/// The alias pairs of `p` whose address has an alias among the first `n` kept lines.
pub open spec fn seen_pairs(p: Seq<LineView>, n: int) -> Set<(IpAddress, Seq<char>)> {
    Set::new(
        |pr: (IpAddress, Seq<char>)|
            alias_pairs(p).contains(pr) && alias_addrs(p.subrange(0, n)).contains(pr.0),
    )
}

proof fn lemma_alias_pairs_push_plain(q: Seq<LineView>, l: LineView)
    requires
        !(l is Alias),
    ensures
        alias_pairs(q.push(l)) == alias_pairs(q),
{
    assert forall|pr: (IpAddress, Seq<char>)| alias_pairs(q.push(l)).contains(pr) implies alias_pairs(q).contains(pr) by {
        let i = choose|i: int| 0 <= i < q.push(l).len() && q.push(l)[i] == LineView::Alias(pr.0, pr.1);
        assert(q[i] == q.push(l)[i]);
    }
    assert forall|pr: (IpAddress, Seq<char>)| alias_pairs(q).contains(pr) implies alias_pairs(q.push(l)).contains(pr) by {
        let i = choose|i: int| 0 <= i < q.len() && q[i] == LineView::Alias(pr.0, pr.1);
        assert(q.push(l)[i] == q[i]);
    }
    assert(alias_pairs(q.push(l)) =~= alias_pairs(q));
}

/// The serialized body of well-formed kept lines parses to no blocked names and to the same
/// plain lines and, for the addresses met so far, the same aliases.
proof fn lemma_body(p: Seq<LineView>, n: int)
    requires
        0 <= n <= p.len(),
        forall|k: int| 0 <= k < p.len() ==> line_ok(#[trigger] p[k]),
    ensures
        forall|k: int| 0 <= k < body_lines(p, n).len() ==> no_feed(#[trigger] body_lines(p, n)[k]),
        parse_lines(body_lines(p, n)) is Ok,
        parse_lines(body_lines(p, n))->Ok_0.0 == Set::<Seq<char>>::empty(),
        kept_plain(parse_lines(body_lines(p, n))->Ok_0.1) == kept_plain(p.subrange(0, n)),
        alias_pairs(parse_lines(body_lines(p, n))->Ok_0.1) == seen_pairs(p, n),
    decreases n,
{
    if n == 0 {
        assert(p.subrange(0, 0) =~= Seq::<LineView>::empty());
        assert(alias_pairs(Seq::<LineView>::empty()) =~= Set::<(IpAddress, Seq<char>)>::empty());
        assert(seen_pairs(p, 0) =~= Set::<(IpAddress, Seq<char>)>::empty());
    } else {
        lemma_body(p, n - 1);
        let b = body_lines(p, n - 1);
        let m0 = parse_lines(b)->Ok_0.0;
        let q0 = parse_lines(b)->Ok_0.1;
        let pre = p.subrange(0, n - 1);
        let cur = p.subrange(0, n);
        assert(cur.drop_last() =~= pre);
        assert(cur.last() == p[n - 1]);
        assert(line_ok(p[n - 1]));
        match p[n - 1] {
            LineView::Comment(t) => {
                let nb = b.push(t);
                assert(nb.drop_last() =~= b);
                assert(forall|k: int| 0 <= k < nb.len() ==> no_feed(#[trigger] nb[k])) by {
                    assert forall|k: int| 0 <= k < nb.len() implies no_feed(#[trigger] nb[k]) by {
                        if k < b.len() {
                            assert(nb[k] == b[k]);
                        }
                    }
                }
                assert(q0.push(LineView::Comment(t)).drop_last() =~= q0);
                lemma_alias_pairs_push_plain(q0, LineView::Comment(t));
                assert(seen_pairs(p, n) =~= seen_pairs(p, n - 1));
            },
            LineView::Foreign(t) => {
                let nb = b.push(t);
                assert(nb.drop_last() =~= b);
                assert(forall|k: int| 0 <= k < nb.len() ==> no_feed(#[trigger] nb[k])) by {
                    assert forall|k: int| 0 <= k < nb.len() implies no_feed(#[trigger] nb[k]) by {
                        if k < b.len() {
                            assert(nb[k] == b[k]);
                        }
                    }
                }
                assert(q0.push(LineView::Foreign(t)).drop_last() =~= q0);
                lemma_alias_pairs_push_plain(q0, LineView::Foreign(t));
                assert(seen_pairs(p, n) =~= seen_pairs(p, n - 1));
            },
            LineView::Alias(a, h) => {
                if alias_addrs(pre).contains(a) {
                    assert(seen_pairs(p, n) =~= seen_pairs(p, n - 1));
                } else {
                    let set = alias_hosts(p, a);
                    lemma_alias_hosts_listing(p, a);
                    let hs = sorted_of(set);
                    assert(set.contains(h)) by {
                        assert(p[n - 1] == LineView::Alias(a, h));
                    }
                    assert(hs.len() >= 1) by {
                        if hs.len() == 0 {
                            assert(hs.to_set().contains(h));
                        }
                    }
                    assert forall|k: int| 0 <= k < hs.len() implies is_word(#[trigger] hs[k]) && is_local(hs[k]) by {
                        assert(hs.to_set().contains(hs[k]));
                        let i = choose|i: int| 0 <= i < p.len() && p[i] == LineView::Alias(a, hs[k]);
                        assert(line_ok(p[i]));
                    }
                    lemma_record_classify(a, hs);
                    let rec = record_text(a, hs);
                    let nb = b.push(rec);
                    assert(nb.drop_last() =~= b);
                    assert(forall|k: int| 0 <= k < nb.len() ==> no_feed(#[trigger] nb[k])) by {
                        assert forall|k: int| 0 <= k < nb.len() implies no_feed(#[trigger] nb[k]) by {
                            if k < b.len() {
                                assert(nb[k] == b[k]);
                            }
                        }
                    }
                    lemma_record_names_local(a, hs);
                    let added = hs.map_values(|x: Seq<char>| LineView::Alias(a, x));
                    assert(m0 + Set::<Seq<char>>::empty() =~= Set::<Seq<char>>::empty());
                    lemma_kept_plain_aliases(q0, added);
                    let q1 = q0 + added;
                    assert(alias_addrs(cur) == alias_addrs(pre).push(a));
                    assert forall|pr: (IpAddress, Seq<char>)| alias_pairs(q1).contains(pr) implies seen_pairs(p, n).contains(pr) by {
                        let i = choose|i: int| 0 <= i < q1.len() && q1[i] == LineView::Alias(pr.0, pr.1);
                        if i < q0.len() {
                            assert(q0[i] == q1[i]);
                            assert(alias_pairs(q0).contains(pr));
                            assert(seen_pairs(p, n - 1).contains(pr));
                            let j = choose|j: int| 0 <= j < alias_addrs(pre).len() && alias_addrs(pre)[j] == pr.0;
                            assert(alias_addrs(cur)[j] == pr.0);
                        } else {
                            assert(q1[i] == added[i - q0.len()]);
                            assert(pr.0 == a && pr.1 == hs[i - q0.len()]);
                            assert(hs.to_set().contains(pr.1));
                            assert(set.contains(pr.1));
                            assert(alias_addrs(cur)[alias_addrs(pre).len() as int] == a);
                        }
                    }
                    assert forall|pr: (IpAddress, Seq<char>)| seen_pairs(p, n).contains(pr) implies alias_pairs(q1).contains(pr) by {
                        let j = choose|j: int| 0 <= j < alias_addrs(cur).len() && alias_addrs(cur)[j] == pr.0;
                        if j < alias_addrs(pre).len() {
                            assert(seen_pairs(p, n - 1).contains(pr));
                            let i = choose|i: int| 0 <= i < q0.len() && q0[i] == LineView::Alias(pr.0, pr.1);
                            assert(q1[i] == q0[i]);
                        } else {
                            assert(pr.0 == a);
                            assert(set.contains(pr.1));
                            assert(hs.to_set().contains(pr.1));
                            let k = choose|k: int| 0 <= k < hs.len() && hs[k] == pr.1;
                            assert(q1[q0.len() + k] == added[k]);
                        }
                    }
                    assert(alias_pairs(q1) =~= seen_pairs(p, n));
                }
            },
        }
    }
}

/// Writing back a well-formed document and parsing the text keeps the blocked names, the
/// comments and foreign records in their order, and the aliases (the pairs of address and
/// name). `listing` is the blocked names, ascending.
pub proof fn lemma_round_trip_doc(m: Set<Seq<char>>, p: Seq<LineView>, listing: Seq<Seq<char>>)
    requires
        doc_ok(m, p),
        strictly_sorted(listing),
        listing.to_set() == m,
    ensures
        parse_text(serialize_text(m, p)) is Ok,
        parse_text(serialize_text(m, p))->Ok_0.0 == m,
        kept_plain(parse_text(serialize_text(m, p))->Ok_0.1) == kept_plain(p),
        alias_pairs(parse_text(serialize_text(m, p))->Ok_0.1) == alias_pairs(p),
{
    lemma_body(p, p.len() as int);
    assert(p.subrange(0, p.len() as int) =~= p);
    assert(seen_pairs(p, p.len() as int) =~= alias_pairs(p)) by {
        assert forall|pr: (IpAddress, Seq<char>)| alias_pairs(p).contains(pr) implies seen_pairs(p, p.len() as int).contains(pr) by {
            let i = choose|i: int| 0 <= i < p.len() && p[i] == LineView::Alias(pr.0, pr.1);
            lemma_alias_addrs_has(p, i);
        }
    }
    let b = body_lines(p, p.len() as int);
    let q = parse_lines(b)->Ok_0.1;
    let r = blocking_records(m);
    let lines = b + r;
    if m == Set::<Seq<char>>::empty() {
        assert(lines =~= b);
    } else {
        let hs = listing;
        lemma_sorted_of(hs);
        assert(sorted_of(m) == hs);
        assert forall|k: int| 0 <= k < hs.len() implies is_word(#[trigger] hs[k]) && !is_local(hs[k]) by {
            assert(m.contains(hs[k]));
        }
        assert(hs.len() >= 1) by {
            if hs.len() == 0 {
                assert(hs.to_set() =~= Set::<Seq<char>>::empty());
            }
        }
        let a = canonical_loopback();
        lemma_record_classify(a, hs);
        lemma_record_names_blocked(a, hs);
        let rec = record_text(a, hs);
        assert(lines =~= b.push(rec));
        assert(lines.drop_last() =~= b);
        assert(Set::<Seq<char>>::empty() + hs.to_set() =~= m);
        assert(q + Seq::<LineView>::empty() =~= q);
        assert(lines.last() == rec);
        assert(classify(lines.last()) == LineKind::Loopback(a, hs));
        assert(parse_lines(lines) == Ok::<_, int>((m, q)));
    }
    assert forall|k: int| 0 <= k < lines.len() implies no_feed(#[trigger] lines[k]) by {
        if k < b.len() {
            assert(lines[k] == b[k]);
        }
    }
    lemma_split_join(lines);
    let e = Seq::<char>::empty();
    assert(lines.push(e).drop_last() =~= lines);
    assert(trim(e) =~= e);
    assert(classify(e) == LineKind::Blank);
    assert(parse_lines(lines.push(e)) == parse_lines(lines));
    assert(serialize_text(m, p) == crate::text::join_lines(lines, '\n'));
    assert(parse_text(serialize_text(m, p)) == parse_lines(lines.push(e)));
}

/// Parsing, writing back and parsing again keeps the blocked names, the comments and
/// foreign records in their order, and the aliases (the pairs of address and name).
pub proof fn lemma_round_trip(text: Seq<char>, doc: ParsedHosts)
    requires
        doc.wf(),
        parse_text(text) == Ok::<_, int>((doc.blocked(), doc.lines())),
    ensures
        parse_text(serialize_text(doc.blocked(), doc.lines())) is Ok,
        parse_text(serialize_text(doc.blocked(), doc.lines()))->Ok_0.0 == doc.blocked(),
        kept_plain(parse_text(serialize_text(doc.blocked(), doc.lines()))->Ok_0.1) == kept_plain(doc.lines()),
        alias_pairs(parse_text(serialize_text(doc.blocked(), doc.lines()))->Ok_0.1) == alias_pairs(doc.lines()),
{
    lemma_parse_ok(text);
    lemma_round_trip_doc(doc.blocked(), doc.lines(), views(doc.blocking@));
}

} // verus!
