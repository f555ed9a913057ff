use vstd::prelude::*;

use crate::text::{chars_of, split, split_ranges, text_of};

verus! {

/// An IP address: four octets, or eight 16-bit groups.
#[derive(Clone, Copy, Debug, PartialEq, Eq, Structural, Hash)]
pub enum IpAddress {
    V4(u8, u8, u8, u8),
    V6(u16, u16, u16, u16, u16, u16, u16, u16),
}

pub open spec fn is_digit(c: char) -> bool {
    '0' <= c && c <= '9'
}

pub open spec fn digit_value(c: char) -> int {
    c as u32 as int - 48
}

pub open spec fn is_hex_digit(c: char) -> bool {
    is_digit(c) || ('a' <= c && c <= 'f') || ('A' <= c && c <= 'F')
}

pub open spec fn hex_digit_value(c: char) -> int {
    if is_digit(c) {
        digit_value(c)
    } else if 'a' <= c && c <= 'f' {
        c as u32 as int - 87
    } else {
        c as u32 as int - 55
    }
}

/// The number that the decimal digits `s` write.
pub open spec fn dec_value(s: Seq<char>) -> int
    decreases s.len(),
{
    if s.len() == 0 {
        0
    } else {
        dec_value(s.drop_last()) * 10 + digit_value(s.last())
    }
}

/// The number that the hexadecimal digits `s` write.
pub open spec fn hex_value(s: Seq<char>) -> int
    decreases s.len(),
{
    if s.len() == 0 {
        0
    } else {
        hex_value(s.drop_last()) * 16 + hex_digit_value(s.last())
    }
}

/// A field of a dotted IPv4 address: one to three decimal digits, no leading zero, at most 255.
pub open spec fn octet_text(s: Seq<char>) -> Option<u8> {
    if 1 <= s.len() <= 3 && (forall|i: int| 0 <= i < s.len() ==> is_digit(#[trigger] s[i])) && (
    s.len() == 1 || s[0] != '0') && dec_value(s) <= 255 {
        Some(dec_value(s) as u8)
    } else {
        None
    }
}

/// A group of an IPv6 address: one to four hexadecimal digits.
pub open spec fn group_text(s: Seq<char>) -> Option<u16> {
    if 1 <= s.len() <= 4 && (forall|i: int| 0 <= i < s.len() ==> is_hex_digit(#[trigger] s[i])) {
        Some(hex_value(s) as u16)
    } else {
        None
    }
}

/// The address that a dotted-quad text writes, if it is one.
pub open spec fn v4_text(s: Seq<char>) -> Option<IpAddress> {
    let p = split(s, '.');
    if p.len() == 4 && octet_text(p[0]) is Some && octet_text(p[1]) is Some && octet_text(p[2]) is Some
        && octet_text(p[3]) is Some {
        Some(
            IpAddress::V4(
                octet_text(p[0])->0,
                octet_text(p[1])->0,
                octet_text(p[2])->0,
                octet_text(p[3])->0,
            ),
        )
    } else {
        None
    }
}

/// The groups that a colon-separated list of hexadecimal groups writes; the empty text
/// writes no group.
pub open spec fn group_list(s: Seq<char>) -> Option<Seq<u16>> {
    let p = split(s, ':');
    if s.len() == 0 {
        Some(Seq::<u16>::empty())
    } else if forall|i: int| 0 <= i < p.len() ==> (#[trigger] group_text(p[i])) is Some {
        Some(p.map_values(|g: Seq<char>| group_text(g)->0))
    } else {
        None
    }
}

/// The two groups that an IPv4 address stands for at the end of an IPv6 address.
pub open spec fn v4_pair(a: IpAddress) -> Seq<u16> {
    match a {
        IpAddress::V4(a0, b, c, d) => seq![(a0 as int * 256 + b as int) as u16, (c as int * 256 + d as int) as u16],
        _ => Seq::empty(),
    }
}

/// The groups that a colon-separated list writes when its last field may also be a dotted
/// IPv4 address, which stands for two groups.
pub open spec fn tail_list(s: Seq<char>) -> Option<Seq<u16>> {
    let p = split(s, ':');
    if s.len() > 0 && v4_text(p.last()) is Some && (forall|i: int|
        0 <= i < p.len() - 1 ==> (#[trigger] group_text(p[i])) is Some) {
        Some(p.drop_last().map_values(|g: Seq<char>| group_text(g)->0) + v4_pair(v4_text(p.last())->0))
    } else {
        group_list(s)
    }
}

/// The first index `k >= from` with `s[k] == s[k + 1] == ':'`, or -1.
pub open spec fn double_colon_at(s: Seq<char>, from: int) -> int
    decreases s.len() - from,
{
    if from < 0 || from + 1 >= s.len() {
        -1
    } else if s[from] == ':' && s[from + 1] == ':' {
        from
    } else {
        double_colon_at(s, from + 1)
    }
}

/// The eight groups that an IPv6 text writes, if it is one: eight groups, or fewer with a
/// single `::` standing for one or more zero groups; the text may end in a dotted IPv4
/// address, which stands for the last two groups.
pub open spec fn v6_groups(s: Seq<char>) -> Option<Seq<u16>> {
    let k = double_colon_at(s, 0);
    if k >= 0 {
        let head = group_list(s.subrange(0, k));
        let tail = tail_list(s.subrange(k + 2, s.len() as int));
        if head is Some && tail is Some && head->0.len() + tail->0.len() <= 7 {
            Some(
                head->0 + Seq::new((8 - head->0.len() - tail->0.len()) as nat, |i: int| 0u16)
                    + tail->0,
            )
        } else {
            None
        }
    } else {
        let g = tail_list(s);
        if s.len() > 0 && g is Some && g->0.len() == 8 {
            g
        } else {
            None
        }
    }
}

pub open spec fn v6_of(g: Seq<u16>) -> IpAddress {
    IpAddress::V6(g[0], g[1], g[2], g[3], g[4], g[5], g[6], g[7])
}

/// The address that a text writes, if it writes one.
pub open spec fn address_text(s: Seq<char>) -> Option<IpAddress> {
    if v4_text(s) is Some {
        v4_text(s)
    } else if v6_groups(s) is Some {
        Some(v6_of(v6_groups(s)->0))
    } else {
        None
    }
}

/// Loopback: any IPv4 address of 127/8, `0.0.0.0`, `::1` or `::`.
pub open spec fn is_loopback(a: IpAddress) -> bool {
    match a {
        IpAddress::V4(a0, b, c, d) => a0 == 127 || (a0 == 0 && b == 0 && c == 0 && d == 0),
        IpAddress::V6(a0, b, c, d, e, f, g, h) => a0 == 0 && b == 0 && c == 0 && d == 0 && e == 0
            && f == 0 && g == 0 && (h == 0 || h == 1),
    }
}

fn parse_octet(v: &Vec<char>, lo: usize, hi: usize) -> (r: Option<u8>)
    requires
        lo <= hi <= v@.len(),
    ensures
        r == octet_text(v@.subrange(lo as int, hi as int)),
{
    let ghost s = v@.subrange(lo as int, hi as int);
    if hi - lo < 1 || hi - lo > 3 {
        return None;
    }
    if hi - lo > 1 && v[lo] == '0' {
        assert(s[0] == v@[lo as int]);
        return None;
    }
    let mut val: u32 = 0;
    let mut i: usize = lo;
    while i < hi
        invariant
            lo <= i <= hi <= v@.len(),
            hi - lo <= 3,
            s == v@.subrange(lo as int, hi as int),
            forall|k: int| lo <= k < i ==> is_digit(#[trigger] v@[k]),
            val == dec_value(v@.subrange(lo as int, i as int)),
            val < 1000,
            i - lo < 3 ==> val < 100 && (i - lo < 2 ==> val < 10),
        decreases hi - i,
    {
        let c = v[i];
        if !('0' <= c && c <= '9') {
            assert(s[(i - lo) as int] == c);
            return None;
        }
        assert(v@.subrange(lo as int, i + 1).drop_last() =~= v@.subrange(lo as int, i as int));
        val = val * 10 + (c as u32 - 48);
        i = i + 1;
    }
    assert(v@.subrange(lo as int, i as int) =~= s);
    assert forall|k: int| 0 <= k < s.len() implies is_digit(#[trigger] s[k]) by {
        assert(s[k] == v@[lo + k]);
    }
    if val > 255 {
        return None;
    }
    assert(s.len() == 1 || s[0] == v@[lo as int]);
    Some(val as u8)
}

fn parse_group(v: &Vec<char>, lo: usize, hi: usize) -> (r: Option<u16>)
    requires
        lo <= hi <= v@.len(),
    ensures
        r == group_text(v@.subrange(lo as int, hi as int)),
{
    let ghost s = v@.subrange(lo as int, hi as int);
    if hi - lo < 1 || hi - lo > 4 {
        return None;
    }
    let mut val: u32 = 0;
    let mut i: usize = lo;
    while i < hi
        invariant
            lo <= i <= hi <= v@.len(),
            hi - lo <= 4,
            s == v@.subrange(lo as int, hi as int),
            forall|k: int| lo <= k < i ==> is_hex_digit(#[trigger] v@[k]),
            val == hex_value(v@.subrange(lo as int, i as int)),
            0 <= val < 65536,
            val < pow16((i - lo) as nat),
        decreases hi - i,
    {
        let c = v[i];
        let d: u32;
        if '0' <= c && c <= '9' {
            d = c as u32 - 48;
        } else if 'a' <= c && c <= 'f' {
            d = c as u32 - 87;
        } else if 'A' <= c && c <= 'F' {
            d = c as u32 - 55;
        } else {
            assert(s[(i - lo) as int] == c);
            return None;
        }
        assert(v@.subrange(lo as int, i + 1).drop_last() =~= v@.subrange(lo as int, i as int));
        proof {
            assert(pow16((i + 1 - lo) as nat) == 16 * pow16((i - lo) as nat));
            assert(val * 16 + d < pow16((i + 1 - lo) as nat)) by (nonlinear_arith)
                requires
                    val < pow16((i - lo) as nat),
                    d < 16,
                    pow16((i + 1 - lo) as nat) == 16 * pow16((i - lo) as nat),
            ;
            lemma_pow16_bound((i + 1 - lo) as nat);
        }
        val = val * 16 + d;
        i = i + 1;
    }
    assert(v@.subrange(lo as int, i as int) =~= s);
    assert forall|k: int| 0 <= k < s.len() implies is_hex_digit(#[trigger] s[k]) by {
        assert(s[k] == v@[lo + k]);
    }
    Some(val as u16)
}

pub open spec fn pow16(n: nat) -> int
    decreases n,
{
    if n == 0 {
        1
    } else {
        16 * pow16((n - 1) as nat)
    }
}

proof fn lemma_pow16_bound(n: nat)
    requires
        n <= 4,
    ensures
        pow16(n) <= 65536,
{
    reveal_with_fuel(pow16, 5);
}

fn parse_v4(v: &Vec<char>, lo: usize, hi: usize) -> (r: Option<IpAddress>)
    requires
        lo <= hi <= v@.len(),
    ensures
        r == v4_text(v@.subrange(lo as int, hi as int)),
{
    let p = split_ranges(v, lo, hi, '.');
    if p.len() != 4 {
        return None;
    }
    let a = parse_octet(v, p[0].0, p[0].1);
    let b = parse_octet(v, p[1].0, p[1].1);
    let c = parse_octet(v, p[2].0, p[2].1);
    let d = parse_octet(v, p[3].0, p[3].1);
    match (a, b, c, d) {
        (Some(a), Some(b), Some(c), Some(d)) => Some(IpAddress::V4(a, b, c, d)),
        _ => None,
    }
}

fn parse_group_list(v: &Vec<char>, lo: usize, hi: usize) -> (r: Option<Vec<u16>>)
    requires
        lo <= hi <= v@.len(),
    ensures
        match r {
            Some(g) => group_list(v@.subrange(lo as int, hi as int)) == Some(g@),
            None => group_list(v@.subrange(lo as int, hi as int)) is None,
        },
{
    let ghost s = v@.subrange(lo as int, hi as int);
    let ghost p = split(s, ':');
    let mut out: Vec<u16> = Vec::new();
    if lo == hi {
        return Some(out);
    }
    let ranges = split_ranges(v, lo, hi, ':');
    let mut i: usize = 0;
    while i < ranges.len()
        invariant
            lo <= hi <= v@.len(),
            s == v@.subrange(lo as int, hi as int),
            p == split(s, ':'),
            s.len() > 0,
            ranges@.len() == p.len(),
            forall|j: int|
                0 <= j < ranges@.len() ==> lo <= (#[trigger] ranges@[j]).0 <= ranges@[j].1 <= hi
                    && v@.subrange(ranges@[j].0 as int, ranges@[j].1 as int) == p[j],
            i <= ranges@.len(),
            out@.len() == i,
            forall|j: int| 0 <= j < i ==> (#[trigger] group_text(p[j])) is Some && out@[j] == group_text(p[j])->0,
        decreases ranges@.len() - i,
    {
        let (a, b) = ranges[i];
        match parse_group(v, a, b) {
            Some(g) => {
                out.push(g);
            },
            None => {
                assert(group_text(p[i as int]) is None);
                return None;
            },
        }
        i = i + 1;
    }
    assert(out@ =~= p.map_values(|g: Seq<char>| group_text(g)->0));
    Some(out)
}

/// Reads a group list whose last field may be a dotted IPv4 address.
fn parse_tail_list(v: &Vec<char>, lo: usize, hi: usize) -> (r: Option<Vec<u16>>)
    requires
        lo <= hi <= v@.len(),
    ensures
        match r {
            Some(g) => tail_list(v@.subrange(lo as int, hi as int)) == Some(g@),
            None => tail_list(v@.subrange(lo as int, hi as int)) is None,
        },
{
    let ghost s = v@.subrange(lo as int, hi as int);
    let ghost p = split(s, ':');
    if lo == hi {
        return parse_group_list(v, lo, hi);
    }
    let ranges = split_ranges(v, lo, hi, ':');
    let n = ranges.len();
    let (a, b) = ranges[n - 1];
    assert(p.last() == v@.subrange(a as int, b as int));
    match parse_v4(v, a, b) {
        Some(IpAddress::V4(x, y, z, w)) => {
            let mut out: Vec<u16> = Vec::new();
            let mut i: usize = 0;
            while i < n - 1
                invariant
                    lo <= hi <= v@.len(),
                    s == v@.subrange(lo as int, hi as int),
                    p == split(s, ':'),
                    n == ranges@.len(),
                    n >= 1,
                    ranges@.len() == p.len(),
                    forall|j: int|
                        0 <= j < ranges@.len() ==> lo <= (#[trigger] ranges@[j]).0 <= ranges@[j].1 <= hi
                            && v@.subrange(ranges@[j].0 as int, ranges@[j].1 as int) == p[j],
                    i <= n - 1,
                    out@.len() == i,
                    forall|j: int| 0 <= j < i ==> (#[trigger] group_text(p[j])) is Some && out@[j] == group_text(p[j])->0,
                decreases n - 1 - i,
            {
                let (c, d) = ranges[i];
                match parse_group(v, c, d) {
                    Some(g) => {
                        out.push(g);
                    },
                    None => {
                        assert(group_text(p[i as int]) is None);
                        return parse_group_list(v, lo, hi);
                    },
                }
                i = i + 1;
            }
            let ghost front = out@;
            out.push(x as u16 * 256 + y as u16);
            out.push(z as u16 * 256 + w as u16);
            assert(front =~= p.drop_last().map_values(|g: Seq<char>| group_text(g)->0));
            assert(out@ =~= front + v4_pair(IpAddress::V4(x, y, z, w)));
            Some(out)
        },
        _ => parse_group_list(v, lo, hi),
    }
}

fn find_double_colon(v: &Vec<char>, lo: usize, hi: usize) -> (r: Option<usize>)
    requires
        lo <= hi <= v@.len(),
    ensures
        match r {
            Some(k) => lo <= k && k + 2 <= hi && double_colon_at(v@.subrange(lo as int, hi as int), 0) == k - lo,
            None => double_colon_at(v@.subrange(lo as int, hi as int), 0) == -1,
        },
{
    let ghost s = v@.subrange(lo as int, hi as int);
    let mut i: usize = lo;
    while hi - i > 1
        invariant
            lo <= i <= hi <= v@.len(),
            s == v@.subrange(lo as int, hi as int),
            double_colon_at(s, 0) == double_colon_at(s, i - lo),
        decreases hi - i,
    {
        if v[i] == ':' && v[i + 1] == ':' {
            assert(s[i - lo] == v@[i as int] && s[i - lo + 1] == v@[i + 1]);
            return Some(i);
        }
        assert(s[i - lo] == v@[i as int] && s[i - lo + 1] == v@[i + 1]);
        i = i + 1;
    }
    None
}

fn parse_v6(v: &Vec<char>, lo: usize, hi: usize) -> (r: Option<IpAddress>)
    requires
        lo <= hi <= v@.len(),
    ensures
        match v6_groups(v@.subrange(lo as int, hi as int)) {
            Some(g) => r == Some(v6_of(g)),
            None => r is None,
        },
{
    let ghost s = v@.subrange(lo as int, hi as int);
    match find_double_colon(v, lo, hi) {
        Some(k) => {
            assert(s.subrange(0, k - lo) =~= v@.subrange(lo as int, k as int));
            assert(s.subrange(k - lo + 2, s.len() as int) =~= v@.subrange(k + 2, hi as int));
            let head = parse_group_list(v, lo, k);
            let tail = parse_tail_list(v, k + 2, hi);
            match (head, tail) {
                (Some(h), Some(t)) => {
                    if h.len() > 7 || t.len() > 7 - h.len() {
                        return None;
                    }
                    let mut g: Vec<u16> = h;
                    let zeros: usize = 8 - g.len() - t.len();
                    let mut z: usize = 0;
                    let ghost h0 = g@;
                    while z < zeros
                        invariant
                            z <= zeros,
                            g@ == h0 + Seq::new(z as nat, |i: int| 0u16),
                        decreases zeros - z,
                    {
                        g.push(0);
                        z = z + 1;
                        assert(g@ =~= h0 + Seq::new(z as nat, |i: int| 0u16));
                    }
                    let mut j: usize = 0;
                    let ghost g0 = g@;
                    while j < t.len()
                        invariant
                            j <= t@.len(),
                            g@ == g0 + t@.subrange(0, j as int),
                        decreases t@.len() - j,
                    {
                        g.push(t[j]);
                        j = j + 1;
                        assert(g@ =~= g0 + t@.subrange(0, j as int));
                    }
                    assert(t@.subrange(0, t@.len() as int) =~= t@);
                    assert(g@.len() == 8);
                    Some(IpAddress::V6(g[0], g[1], g[2], g[3], g[4], g[5], g[6], g[7]))
                },
                _ => None,
            }
        },
        None => {
            if lo == hi {
                return None;
            }
            match parse_tail_list(v, lo, hi) {
                Some(g) => {
                    if g.len() != 8 {
                        return None;
                    }
                    Some(IpAddress::V6(g[0], g[1], g[2], g[3], g[4], g[5], g[6], g[7]))
                },
                None => None,
            }
        },
    }
}

/// The address written by `v[lo..hi]`, if it writes one.
pub(crate) fn parse_address_range(v: &Vec<char>, lo: usize, hi: usize) -> (r: Option<IpAddress>)
    requires
        lo <= hi <= v@.len(),
    ensures
        r == address_text(v@.subrange(lo as int, hi as int)),
{
    match parse_v4(v, lo, hi) {
        Some(a) => Some(a),
        None => parse_v6(v, lo, hi),
    }
}

/// Reads an IPv4 address in dotted-quad form (no leading zeros) or an IPv6 address in
/// colon-hexadecimal form, with at most one `::`.
pub fn parse_ip_address(s: &str) -> (r: Option<IpAddress>)
    ensures
        r == address_text(s@),
{
    let v = chars_of(s);
    assert(v@.subrange(0, v@.len() as int) =~= v@);
    parse_address_range(&v, 0, v.len())
}

/// Whether an address designates this host: 127/8, `0.0.0.0`, `::1` or `::`.
pub fn is_localhost_ip(ip: &IpAddress) -> (r: bool)
    ensures
        r == is_loopback(*ip),
{
    match *ip {
        IpAddress::V4(a, b, c, d) => a == 127 || (a == 0 && b == 0 && c == 0 && d == 0),
        IpAddress::V6(a, b, c, d, e, f, g, h) => a == 0 && b == 0 && c == 0 && d == 0 && e == 0
            && f == 0 && g == 0 && (h == 0 || h == 1),
    }
}

/// The digit that writes `d`, below sixteen, in lower case.
pub open spec fn digit_char(d: int) -> char {
    (if d < 10 {
        d + 48
    } else {
        d + 87
    }) as u8 as char
}

/// `n` in decimal, without leading zeros.
pub open spec fn dec_text(n: nat) -> Seq<char>
    decreases n,
{
    if n < 10 {
        seq![digit_char(n as int)]
    } else {
        dec_text(n / 10).push(digit_char((n % 10) as int))
    }
}

/// `n` in lower-case hexadecimal, without leading zeros.
pub open spec fn hex_text(n: nat) -> Seq<char>
    decreases n,
{
    if n < 16 {
        seq![digit_char(n as int)]
    } else {
        hex_text(n / 16).push(digit_char((n % 16) as int))
    }
}

pub open spec fn radix_text(n: nat, base: nat) -> Seq<char> {
    if base == 16 {
        hex_text(n)
    } else {
        dec_text(n)
    }
}

fn digit(d: u32) -> (c: char)
    requires
        d < 16,
    ensures
        c == digit_char(d as int),
{
    let b: u8 = if d < 10 {
        d as u8 + 48
    } else {
        d as u8 + 87
    };
    b as char
}

/// How an address is written out: dotted decimal for IPv4; `::1` and `::` for the IPv6
/// loopback and unspecified addresses, eight hexadecimal groups for any other.
pub open spec fn render(a: IpAddress) -> Seq<char> {
    match a {
        IpAddress::V4(a0, b, c, d) => radix_text(a0 as nat, 10) + seq!['.'] + radix_text(b as nat, 10)
            + seq!['.'] + radix_text(c as nat, 10) + seq!['.'] + radix_text(d as nat, 10),
        IpAddress::V6(a0, b, c, d, e, f, g, h) => if is_loopback(a) {
            if h == 1 {
                seq![':', ':', '1']
            } else {
                seq![':', ':']
            }
        } else {
            radix_text(a0 as nat, 16) + seq![':'] + radix_text(b as nat, 16) + seq![':'] + radix_text(
                c as nat,
                16,
            ) + seq![':'] + radix_text(d as nat, 16) + seq![':'] + radix_text(e as nat, 16) + seq![':']
                + radix_text(f as nat, 16) + seq![':'] + radix_text(g as nat, 16) + seq![':']
                + radix_text(h as nat, 16)
        },
    }
}

/// Appends `n` in base `base`.
pub(crate) fn push_radix(out: &mut Vec<char>, n: u32, base: u32)
    requires
        base == 10 || base == 16,
    ensures
        final(out)@ == old(out)@ + radix_text(n as nat, base as nat),
    decreases n,
{
    if n >= base {
        push_radix(out, n / base, base);
    }
    let c = digit(n % base);
    out.push(c);
    proof {
        if n < base {
            assert(old(out)@ + radix_text(n as nat, base as nat) =~= old(out)@.push(c));
        } else {
            assert((old(out)@ + radix_text((n / base) as nat, base as nat)).push(c) =~= old(out)@ + radix_text(
                n as nat,
                base as nat,
            ));
        }
    }
}

/// Appends how `a` is written out.
pub(crate) fn push_address(out: &mut Vec<char>, a: IpAddress)
    ensures
        final(out)@ == old(out)@ + render(a),
{
    let ghost start = out@;
    match a {
        IpAddress::V4(a0, b, c, d) => {
            push_radix(out, a0 as u32, 10);
            out.push('.');
            push_radix(out, b as u32, 10);
            out.push('.');
            push_radix(out, c as u32, 10);
            out.push('.');
            push_radix(out, d as u32, 10);
            assert(out@ =~= start + render(a));
        },
        IpAddress::V6(a0, b, c, d, e, f, g, h) => {
            if is_localhost_ip(&a) {
                out.push(':');
                out.push(':');
                if h == 1 {
                    out.push('1');
                }
                assert(out@ =~= start + render(a));
            } else {
                push_radix(out, a0 as u32, 16);
                out.push(':');
                push_radix(out, b as u32, 16);
                out.push(':');
                push_radix(out, c as u32, 16);
                out.push(':');
                push_radix(out, d as u32, 16);
                out.push(':');
                push_radix(out, e as u32, 16);
                out.push(':');
                push_radix(out, f as u32, 16);
                out.push(':');
                push_radix(out, g as u32, 16);
                out.push(':');
                push_radix(out, h as u32, 16);
                assert(out@ =~= start + render(a));
            }
        },
    }
}

/// How an address is written in a hosts file.
pub fn address_to_string(a: &IpAddress) -> (r: String)
    ensures
        r@ == render(*a),
{
    let mut out: Vec<char> = Vec::new();
    push_address(&mut out, *a);
    assert(out@ =~= render(*a));
    text_of(out.as_slice())
}

/// Decimal text reads back as the number it writes.
pub proof fn lemma_dec_text_value(n: nat)
    ensures
        dec_value(dec_text(n)) == n,
    decreases n,
{
    let t = dec_text(n);
    assert(dec_value(t) == dec_value(t.drop_last()) * 10 + digit_value(t.last()));
    assert(dec_value(Seq::<char>::empty()) == 0);
    if n < 10 {
        assert(dec_text(n).drop_last() =~= Seq::<char>::empty());
        assert(dec_text(n).last() == digit_char(n as int));
        assert(digit_value(digit_char(n as int)) == n);
    } else {
        lemma_dec_text_value(n / 10);
        assert(dec_text(n).drop_last() == dec_text(n / 10));
        assert(dec_text(n).last() == digit_char((n % 10) as int));
        assert(digit_value(digit_char((n % 10) as int)) == n % 10);
        assert((n / 10) * 10 + n % 10 == n);
    }
}

} // verus!
