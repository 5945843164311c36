//! The address validator: the grammar of a socket address text, and the
//! function that reads one.
//!
//! A socket address text is a host literal, a colon and a port. The host is a
//! dotted quad (`127.0.0.1`) or an IPv6 literal in square brackets
//! (`[fe80::1%3]`). Names are not accepted: the validator classifies a text
//! by its shape alone, so that the same text is always classified alike, and a
//! name would have to be resolved first.

use crate::text::{
    all_digits_in, chars_of, fields, is_digit_in, is_numeral, lemma_value_nonnegative, numeral_of,
    read_numeral, spans_cover, split_fields, value_in, Numeral,
};
use vstd::prelude::*;

verus! {

/// A numeric host: the address as one number, most significant part first.
#[derive(Clone, Copy, Debug, PartialEq, Eq, Structural)]
pub enum Host {
    /// An IPv4 address; `127.0.0.1` is `0x7F00_0001`.
    V4 { quad: u32 },
    /// An IPv6 address with its scope, which is 0 where the text names none.
    V6 { groups: u128, scope_id: u32 },
}

/// A routable endpoint: a numeric host and a port.
#[derive(Clone, Copy, Debug, PartialEq, Eq, Structural)]
pub struct Endpoint {
    pub host: Host,
    pub port: u16,
}

/// Why a text is no socket address.
#[derive(Clone, Copy, Debug, PartialEq, Eq, Structural)]
pub enum InvalidAddress {
    /// The text is empty.
    Empty,
    /// The text holds no colon, so it names no port.
    MissingPort,
    /// What follows the last colon is empty or holds something other than
    /// decimal digits.
    InvalidPort,
    /// The port is a decimal number above 65535.
    PortOutOfRange,
    /// The port is in order, and what stands before it is neither a dotted
    /// quad nor a bracketed IPv6 literal.
    InvalidHost,
}

impl InvalidAddress {
    /// The reason in words.
    pub open spec fn reason_text(self) -> Seq<char> {
        match self {
            InvalidAddress::Empty => "the address is empty"@,
            InvalidAddress::MissingPort => "the address names no port"@,
            InvalidAddress::InvalidPort => "the port is not a decimal number"@,
            InvalidAddress::PortOutOfRange => "the port is out of range"@,
            InvalidAddress::InvalidHost => "the host is not a numeric address"@,
        }
    }

    /// The reason in words.
    pub fn reason(&self) -> (text: &'static str)
        ensures
            text@ == self.reason_text(),
    {
        match self {
            InvalidAddress::Empty => "the address is empty",
            InvalidAddress::MissingPort => "the address names no port",
            InvalidAddress::InvalidPort => "the port is not a decimal number",
            InvalidAddress::PortOutOfRange => "the port is out of range",
            InvalidAddress::InvalidHost => "the host is not a numeric address",
        }
    }
}

/// The number that one part of a dotted quad denotes: one to three decimal
/// digits, without a leading zero unless it is the only digit, at most 255.
pub open spec fn octet_of(f: Seq<char>) -> Option<int> {
    if is_numeral(f, 10) && f.len() <= 3 && (f.len() == 1 || f[0] != '0') && value_in(f, 10)
        <= 255 {
        Some(value_in(f, 10))
    } else {
        None
    }
}

/// The IPv4 address that a dotted quad denotes: four octets between three
/// dots, the first being the most significant.
pub open spec fn ipv4_of(t: Seq<char>) -> Option<int> {
    let f = fields(t, '.');
    if f.len() == 4 && octet_of(f[0]) is Some && octet_of(f[1]) is Some && octet_of(f[2]) is Some
        && octet_of(f[3]) is Some {
        Some(
            ((octet_of(f[0])->0 * 256 + octet_of(f[1])->0) * 256 + octet_of(f[2])->0) * 256
                + octet_of(f[3])->0,
        )
    } else {
        None
    }
}

/// The number that one group of an IPv6 literal denotes: one to four
/// hexadecimal digits.
pub open spec fn hex_group_of(f: Seq<char>) -> Option<int> {
    if is_numeral(f, 16) && f.len() <= 4 {
        Some(value_in(f, 16))
    } else {
        None
    }
}

/// The 16-bit groups that a list of fields denotes. Each field is a
/// hexadecimal group; where `quad_allowed` holds, the last one may instead be a
/// dotted quad, which stands for two groups.
pub open spec fn groups_of_fields(f: Seq<Seq<char>>, quad_allowed: bool) -> Option<Seq<int>>
    decreases f.len(),
{
    if f.len() == 0 {
        Some(Seq::<int>::empty())
    } else {
        match groups_of_fields(f.drop_last(), false) {
            None => None,
            Some(front) => {
                if hex_group_of(f.last()) is Some {
                    Some(front.push(hex_group_of(f.last())->0))
                } else if quad_allowed && ipv4_of(f.last()) is Some {
                    Some(front.push(ipv4_of(f.last())->0 / 65536).push(ipv4_of(f.last())->0 % 65536))
                } else {
                    None
                }
            },
        }
    }
}

/// The 16-bit groups that one side of an IPv6 literal denotes: none for the
/// empty text, else one for each field between its colons.
pub open spec fn groups_of(t: Seq<char>, quad_allowed: bool) -> Option<Seq<int>> {
    if t.len() == 0 {
        Some(Seq::<int>::empty())
    } else {
        groups_of_fields(fields(t, ':'), quad_allowed)
    }
}

/// Whether two colons stand side by side at `i`.
pub open spec fn gap_at(t: Seq<char>, i: int) -> bool {
    0 <= i && i + 1 < t.len() && t[i] == ':' && t[i + 1] == ':'
}

/// The place of the first double colon in `t`, if it has one.
pub open spec fn first_gap(t: Seq<char>) -> Option<int>
    decreases t.len(),
{
    if t.len() < 2 {
        None
    } else {
        match first_gap(t.drop_last()) {
            Some(i) => Some(i),
            None => if gap_at(t, t.len() - 2) {
                Some(t.len() - 2)
            } else {
                None
            },
        }
    }
}

/// The number that a list of 16-bit groups makes, the first group being the
/// most significant.
pub open spec fn pack(w: Seq<int>) -> int
    decreases w.len(),
{
    if w.len() == 0 {
        0
    } else {
        pack(w.drop_last()) * 65536 + w.last()
    }
}

/// A run of `n` groups that are all zero.
pub open spec fn zero_groups(n: int) -> Seq<int> {
    Seq::new(
        if n >= 0 {
            n as nat
        } else {
            0
        },
        |i: int| 0int,
    )
}

/// The IPv6 address that a literal denotes. Without a double colon the
/// literal names all eight groups. With one, the double colon stands for the
/// run of zero groups, at least one, that fills the literal up to eight; only
/// what follows it may end in a dotted quad.
pub open spec fn ipv6_of(t: Seq<char>) -> Option<int> {
    match first_gap(t) {
        None => match groups_of(t, true) {
            Some(w) => if w.len() == 8 {
                Some(pack(w))
            } else {
                None
            },
            None => None,
        },
        Some(g) => match (
            groups_of(t.subrange(0, g), false),
            groups_of(t.subrange(g + 2, t.len() as int), true),
        ) {
            (Some(head), Some(tail)) => if head.len() + tail.len() <= 7 {
                Some(pack(head + zero_groups(8 - head.len() - tail.len()) + tail))
            } else {
                None
            },
            _ => None,
        },
    }
}

/// The address and scope that a bracketed IPv6 literal denotes. Between the
/// brackets stands the address, and after it there may be a percent sign and a
/// scope: a decimal number that fits in 32 bits.
pub open spec fn bracketed_of(h: Seq<char>) -> Option<(int, int)> {
    if h.len() >= 2 && h[0] == '[' && h.last() == ']' {
        let parts = fields(h.subrange(1, h.len() - 1), '%');
        if parts.len() == 1 {
            match ipv6_of(parts[0]) {
                Some(bits) => Some((bits, 0int)),
                None => None,
            }
        } else if parts.len() == 2 {
            match (ipv6_of(parts[0]), numeral_of(parts[1], 10, 0xFFFF_FFFF)) {
                (Some(bits), Numeral::Value(scope)) => Some((bits, scope as int)),
                _ => None,
            }
        } else {
            None
        }
    } else {
        None
    }
}

/// The host that a host literal denotes.
pub open spec fn host_of(h: Seq<char>) -> Option<Host> {
    match ipv4_of(h) {
        Some(quad) => Some(Host::V4 { quad: quad as u32 }),
        None => match bracketed_of(h) {
            Some((groups, scope)) => Some(
                Host::V6 { groups: groups as u128, scope_id: scope as u32 },
            ),
            None => None,
        },
    }
}

/// What a text is when read as a socket address. The port is what follows
/// the last colon, and the host literal is what stands before that colon.
pub open spec fn parse_address(s: Seq<char>) -> Result<Endpoint, InvalidAddress> {
    let parts = fields(s, ':');
    if s.len() == 0 {
        Err(InvalidAddress::Empty)
    } else if parts.len() < 2 {
        Err(InvalidAddress::MissingPort)
    } else {
        match numeral_of(parts.last(), 10, 65535) {
            Numeral::Malformed => Err(InvalidAddress::InvalidPort),
            Numeral::TooLarge => Err(InvalidAddress::PortOutOfRange),
            Numeral::Value(port) => match host_of(
                s.subrange(0, s.len() - parts.last().len() - 1),
            ) {
                Some(host) => Ok(Endpoint { host, port: port as u16 }),
                None => Err(InvalidAddress::InvalidHost),
            },
        }
    }
}

/// Reads one part of a dotted quad.
fn parse_octet(chars: &Vec<char>, lo: usize, hi: usize) -> (r: Option<u8>)
    requires
        lo <= hi <= chars.len(),
    ensures
        octet_of(chars@.subrange(lo as int, hi as int)) == match r {
            Some(v) => Some(v as int),
            None => None,
        },
{
    if hi - lo > 3 {
        return None;
    }
    if hi - lo > 1 && chars[lo] == '0' {
        return None;
    }
    match read_numeral(chars, lo, hi, 10, 255) {
        Numeral::Value(v) => Some(v as u8),
        _ => None,
    }
}

/// Reads a dotted quad.
fn parse_ipv4(chars: &Vec<char>, lo: usize, hi: usize) -> (r: Option<u32>)
    requires
        lo <= hi <= chars.len(),
    ensures
        ipv4_of(chars@.subrange(lo as int, hi as int)) == match r {
            Some(v) => Some(v as int),
            None => None,
        },
{
    let spans = split_fields(chars, lo, hi, '.');
    if spans.len() != 4 {
        return None;
    }
    let mut bits: u32 = 0;
    let mut k: usize = 0;
    let ghost f = fields(chars@.subrange(lo as int, hi as int), '.');
    while k < 4
        invariant
            0 <= k <= 4,
            spans@.len() == 4,
            f == fields(chars@.subrange(lo as int, hi as int), '.'),
            f.len() == 4,
            spans_cover(chars@, lo as int, hi as int, spans@, f),
            lo <= hi <= chars.len(),
            forall|j: int| 0 <= j < k ==> (#[trigger] octet_of(f[j])) is Some,
            k == 0 ==> bits == 0,
            k == 1 ==> bits as int == octet_of(f[0])->0,
            k == 2 ==> bits as int == octet_of(f[0])->0 * 256 + octet_of(f[1])->0,
            k == 3 ==> bits as int == (octet_of(f[0])->0 * 256 + octet_of(f[1])->0) * 256
                + octet_of(f[2])->0,
            k == 4 ==> bits as int == ((octet_of(f[0])->0 * 256 + octet_of(f[1])->0) * 256
                + octet_of(f[2])->0) * 256 + octet_of(f[3])->0,
        decreases 4 - k,
    {
        let span = spans[k];
        match parse_octet(chars, span.start, span.end) {
            None => {
                return None;
            },
            Some(v) => {
                bits = bits * 256 + (v as u32);
            },
        }
        k = k + 1;
    }
    Some(bits)
}

/// A numeral of at most four hexadecimal digits fits in 16 bits.
proof fn lemma_hex_group_fits(f: Seq<char>)
    requires
        all_digits_in(f, 16),
        f.len() <= 4,
    ensures
        0 <= value_in(f, 16),
        f.len() == 0 ==> value_in(f, 16) == 0,
        f.len() == 1 ==> value_in(f, 16) <= 0xF,
        f.len() == 2 ==> value_in(f, 16) <= 0xFF,
        f.len() == 3 ==> value_in(f, 16) <= 0xFFF,
        f.len() == 4 ==> value_in(f, 16) <= 0xFFFF,
    decreases f.len(),
{
    if f.len() > 0 {
        lemma_hex_group_fits(f.drop_last());
        assert(is_digit_in(f[f.len() - 1], 16));
    }
}

/// Reads one hexadecimal group.
fn parse_hex_group(chars: &Vec<char>, lo: usize, hi: usize) -> (r: Option<u16>)
    requires
        lo <= hi <= chars.len(),
    ensures
        hex_group_of(chars@.subrange(lo as int, hi as int)) == match r {
            Some(v) => Some(v as int),
            None => None,
        },
{
    if hi - lo > 4 {
        return None;
    }
    match read_numeral(chars, lo, hi, 16, 0xFFFF) {
        Numeral::Value(v) => Some(v as u16),
        Numeral::Malformed => None,
        Numeral::TooLarge => {
            // Four hexadecimal digits cannot exceed the bound.
            proof {
                lemma_hex_group_fits(chars@.subrange(lo as int, hi as int));
            }
            None
        },
    }
}

/// Once a field that is not the last is no hexadecimal group, or the fields
/// up to some place denote no groups, the whole list denotes none.
proof fn lemma_groups_fail_for_good(f: Seq<Seq<char>>, quad_allowed: bool, k: int)
    requires
        0 <= k < f.len(),
        groups_of_fields(f.subrange(0, k), false) is None || hex_group_of(f[k]) is None,
        k == f.len() - 1 ==> !quad_allowed || ipv4_of(f[k]) is None || groups_of_fields(
            f.subrange(0, k),
            false,
        ) is None,
    ensures
        groups_of_fields(f, quad_allowed) is None,
    decreases f.len() - k,
{
    if k == f.len() - 1 {
        assert(f.drop_last() =~= f.subrange(0, k));
    } else {
        let front = f.drop_last();
        assert(front.subrange(0, k) =~= f.subrange(0, k));
        assert(front[k] == f[k]);
        lemma_groups_fail_for_good(front, false, k);
    }
}

/// The groups as numbers.
pub open spec fn as_ints(v: Seq<u16>) -> Seq<int> {
    Seq::new(v.len(), |i: int| v[i] as int)
}

/// Reads one side of an IPv6 literal.
fn parse_groups(chars: &Vec<char>, lo: usize, hi: usize, quad_allowed: bool) -> (r: Option<
    Vec<u16>,
>)
    requires
        lo <= hi <= chars.len(),
    ensures
        groups_of(chars@.subrange(lo as int, hi as int), quad_allowed) == match r {
            Some(v) => Some(as_ints(v@)),
            None => None,
        },
{
    let mut out: Vec<u16> = Vec::new();
    if lo == hi {
        assert(as_ints(out@) =~= Seq::<int>::empty());
        return Some(out);
    }
    let spans = split_fields(chars, lo, hi, ':');
    let n = spans.len();
    let ghost f = fields(chars@.subrange(lo as int, hi as int), ':');
    let mut k: usize = 0;
    proof {
        assert(f.subrange(0, 0) =~= Seq::<Seq<char>>::empty());
        assert(as_ints(out@) =~= Seq::<int>::empty());
    }
    while k < n
        invariant
            0 <= k <= n,
            n == spans@.len(),
            lo < hi <= chars.len(),
            f == fields(chars@.subrange(lo as int, hi as int), ':'),
            spans_cover(chars@, lo as int, hi as int, spans@, f),
            groups_of_fields(f.subrange(0, k as int), false) == Some(as_ints(out@)),
        decreases n - k,
    {
        let span = spans[k];
        let ghost front = f.subrange(0, k as int);
        let ghost longer = f.subrange(0, k + 1);
        proof {
            assert(longer.drop_last() =~= front);
            assert(longer.last() == f[k as int]);
        }
        let ghost before = out@;
        match parse_hex_group(chars, span.start, span.end) {
            Some(g) => {
                out.push(g);
                proof {
                    assert(as_ints(out@) =~= as_ints(before).push(g as int));
                }
            },
            None => {
                if quad_allowed && k + 1 == n {
                    match parse_ipv4(chars, span.start, span.end) {
                        Some(q) => {
                            out.push((q / 65536) as u16);
                            out.push((q % 65536) as u16);
                            proof {
                                assert(longer =~= f);
                                assert(as_ints(out@) =~= as_ints(before).push(
                                    q as int / 65536,
                                ).push(q as int % 65536));
                            }
                            return Some(out);
                        },
                        None => {
                            proof {
                                lemma_groups_fail_for_good(f, quad_allowed, k as int);
                            }
                            return None;
                        },
                    }
                } else {
                    proof {
                        lemma_groups_fail_for_good(f, quad_allowed, k as int);
                    }
                    return None;
                }
            },
        }
        k = k + 1;
    }
    proof {
        assert(f.subrange(0, n as int) =~= f);
        lemma_groups_ignore_flag(f);
    }
    Some(out)
}

/// A list of hexadecimal groups denotes the same whether or not a dotted quad
/// would have been allowed at its end.
proof fn lemma_groups_ignore_flag(f: Seq<Seq<char>>)
    requires
        groups_of_fields(f, false) is Some,
    ensures
        groups_of_fields(f, true) == groups_of_fields(f, false),
{
}

/// Where the first double colon stands, nothing before it is one; where
/// there is none, no place holds one.
pub proof fn lemma_first_gap(t: Seq<char>)
    ensures
        match first_gap(t) {
            Some(g) => gap_at(t, g) && forall|i: int| 0 <= i < g ==> !gap_at(t, i),
            None => forall|i: int| !gap_at(t, i),
        },
    decreases t.len(),
{
    if t.len() >= 2 {
        let shorter = t.drop_last();
        lemma_first_gap(shorter);
        assert forall|i: int| 0 <= i && i + 1 < shorter.len() implies gap_at(shorter, i) == gap_at(
            t,
            i,
        ) by {
            assert(shorter[i] == t[i]);
            assert(shorter[i + 1] == t[i + 1]);
        }
    }
}

/// Finds the first double colon among the characters from `lo` up to `hi`.
/// The place it gives counts from `lo`.
fn find_gap(chars: &Vec<char>, lo: usize, hi: usize) -> (r: Option<usize>)
    requires
        lo <= hi <= chars.len(),
    ensures
        first_gap(chars@.subrange(lo as int, hi as int)) == match r {
            Some(g) => Some(g as int),
            None => None,
        },
        r matches Some(g) ==> g + 2 <= hi - lo,
{
    let ghost t = chars@.subrange(lo as int, hi as int);
    proof {
        lemma_first_gap(t);
    }
    if hi - lo < 2 {
        return None;
    }
    let mut i: usize = lo;
    while i + 1 < hi
        invariant
            lo <= i < hi <= chars.len(),
            t == chars@.subrange(lo as int, hi as int),
            forall|j: int| 0 <= j < i - lo ==> !gap_at(t, j),
        decreases hi - i,
    {
        if chars[i] == ':' && chars[i + 1] == ':' {
            proof {
                lemma_first_gap(t);
                assert(gap_at(t, i - lo));
            }
            return Some(i - lo);
        }
        assert(!gap_at(t, i - lo));
        i = i + 1;
    }
    assert forall|j: int| !gap_at(t, j) by {
        if 0 <= j && j + 1 < t.len() {
            assert(j < i - lo);
        }
    }
    None
}

/// Packs eight groups into one number.
fn pack_groups(w: &Vec<u16>) -> (bits: u128)
    requires
        w@.len() == 8,
    ensures
        bits as int == pack(as_ints(w@)),
{
    let mut bits: u128 = 0;
    let mut k: usize = 0;
    let ghost all = as_ints(w@);
    proof {
        assert(all.subrange(0, 0) =~= Seq::<int>::empty());
    }
    while k < 8
        invariant
            0 <= k <= 8,
            w@.len() == 8,
            all == as_ints(w@),
            bits as int == pack(all.subrange(0, k as int)),
            k == 0 ==> bits == 0,
            k == 1 ==> bits <= 0xFFFF,
            k == 2 ==> bits <= 0xFFFF_FFFF,
            k == 3 ==> bits <= 0xFFFF_FFFF_FFFF,
            k == 4 ==> bits <= 0xFFFF_FFFF_FFFF_FFFF,
            k == 5 ==> bits <= 0xFFFF_FFFF_FFFF_FFFF_FFFF,
            k == 6 ==> bits <= 0xFFFF_FFFF_FFFF_FFFF_FFFF_FFFF,
            k == 7 ==> bits <= 0xFFFF_FFFF_FFFF_FFFF_FFFF_FFFF_FFFF,
        decreases 8 - k,
    {
        proof {
            let longer = all.subrange(0, k + 1);
            assert(longer.drop_last() =~= all.subrange(0, k as int));
            assert(longer.last() == w@[k as int] as int);
        }
        bits = bits * 65536 + (w[k] as u128);
        k = k + 1;
    }
    proof {
        assert(all.subrange(0, 8) =~= all);
    }
    bits
}

/// Lays out the eight groups of a literal with a double colon: the groups
/// before it, the zero groups that it stands for, and the groups after it.
fn fill_groups(head: &Vec<u16>, tail: &Vec<u16>) -> (w: Vec<u16>)
    requires
        head@.len() + tail@.len() <= 7,
    ensures
        w@.len() == 8,
        as_ints(w@) == as_ints(head@) + zero_groups(8 - head@.len() - tail@.len()) + as_ints(
            tail@,
        ),
{
    let mut w: Vec<u16> = Vec::new();
    let h = head.len();
    let t = tail.len();
    let zeros: usize = 8 - h - t;
    let mut i: usize = 0;
    while i < h
        invariant
            0 <= i <= h,
            h == head@.len(),
            w@ == head@.subrange(0, i as int),
        decreases h - i,
    {
        w.push(head[i]);
        i = i + 1;
        assert(w@ =~= head@.subrange(0, i as int));
    }
    assert(head@.subrange(0, h as int) =~= head@);
    let mut z: usize = 0;
    while z < zeros
        invariant
            0 <= z <= zeros,
            h == head@.len(),
            w@ == head@ + Seq::new(z as nat, |j: int| 0u16),
        decreases zeros - z,
    {
        w.push(0);
        z = z + 1;
        assert(w@ =~= head@ + Seq::new(z as nat, |j: int| 0u16));
    }
    let mut j: usize = 0;
    assert(w@ =~= head@ + Seq::new(zeros as nat, |j: int| 0u16) + tail@.subrange(0, 0));
    while j < t
        invariant
            0 <= j <= t,
            t == tail@.len(),
            h == head@.len(),
            w@ == head@ + Seq::new(zeros as nat, |j: int| 0u16) + tail@.subrange(0, j as int),
        decreases t - j,
    {
        w.push(tail[j]);
        j = j + 1;
        assert(w@ =~= head@ + Seq::new(zeros as nat, |j: int| 0u16) + tail@.subrange(
            0,
            j as int,
        ));
    }
    assert(tail@.subrange(0, t as int) =~= tail@);
    assert(as_ints(w@) =~= as_ints(head@) + zero_groups(8 - head@.len() - tail@.len()) + as_ints(
        tail@,
    ));
    w
}

/// Reads an IPv6 literal, without its brackets and scope.
fn parse_ipv6(chars: &Vec<char>, lo: usize, hi: usize) -> (r: Option<u128>)
    requires
        lo <= hi <= chars.len(),
    ensures
        ipv6_of(chars@.subrange(lo as int, hi as int)) == match r {
            Some(v) => Some(v as int),
            None => None,
        },
{
    let ghost t = chars@.subrange(lo as int, hi as int);
    match find_gap(chars, lo, hi) {
        None => match parse_groups(chars, lo, hi, true) {
            Some(w) => {
                if w.len() == 8 {
                    Some(pack_groups(&w))
                } else {
                    None
                }
            },
            None => None,
        },
        Some(g) => {
            proof {
                assert(t.subrange(0, g as int) =~= chars@.subrange(lo as int, lo + g));
                assert(t.subrange(g + 2, t.len() as int) =~= chars@.subrange(
                    lo + g + 2,
                    hi as int,
                ));
            }
            let head = match parse_groups(chars, lo, lo + g, false) {
                Some(head) => head,
                None => {
                    return None;
                },
            };
            let tail = match parse_groups(chars, lo + g + 2, hi, true) {
                Some(tail) => tail,
                None => {
                    return None;
                },
            };
            if head.len() > 7 || tail.len() > 7 - head.len() {
                return None;
            }
            let w = fill_groups(&head, &tail);
            Some(pack_groups(&w))
        },
    }
}

/// Reads a bracketed IPv6 literal with its scope, if it names one.
fn parse_bracketed(chars: &Vec<char>, lo: usize, hi: usize) -> (r: Option<(u128, u32)>)
    requires
        lo <= hi <= chars.len(),
    ensures
        bracketed_of(chars@.subrange(lo as int, hi as int)) == match r {
            Some((bits, scope)) => Some((bits as int, scope as int)),
            None => None,
        },
{
    let ghost h = chars@.subrange(lo as int, hi as int);
    if hi - lo < 2 || chars[lo] != '[' || chars[hi - 1] != ']' {
        return None;
    }
    proof {
        assert(h.subrange(1, h.len() - 1) =~= chars@.subrange(lo + 1, hi - 1));
    }
    let spans = split_fields(chars, lo + 1, hi - 1, '%');
    if spans.len() == 1 {
        match parse_ipv6(chars, spans[0].start, spans[0].end) {
            Some(bits) => Some((bits, 0)),
            None => None,
        }
    } else if spans.len() == 2 {
        let bits = match parse_ipv6(chars, spans[0].start, spans[0].end) {
            Some(bits) => bits,
            None => {
                return None;
            },
        };
        match read_numeral(chars, spans[1].start, spans[1].end, 10, 0xFFFF_FFFF) {
            Numeral::Value(scope) => Some((bits, scope as u32)),
            _ => None,
        }
    } else {
        None
    }
}

/// Reads a host literal.
fn parse_host(chars: &Vec<char>, lo: usize, hi: usize) -> (r: Option<Host>)
    requires
        lo <= hi <= chars.len(),
    ensures
        r == host_of(chars@.subrange(lo as int, hi as int)),
{
    match parse_ipv4(chars, lo, hi) {
        Some(quad) => Some(Host::V4 { quad }),
        None => match parse_bracketed(chars, lo, hi) {
            Some((groups, scope_id)) => Some(Host::V6 { groups, scope_id }),
            None => None,
        },
    }
}

/// Reads a socket address. The text is classified by its shape alone: the
/// result is the endpoint that the grammar gives it, or the reason why the
/// grammar gives it none.
pub fn make_socket_addr(address: &str) -> (r: Result<Endpoint, InvalidAddress>)
    ensures
        r == parse_address(address@),
{
    let chars = chars_of(address);
    let n = chars.len();
    if n == 0 {
        return Err(InvalidAddress::Empty);
    }
    proof {
        assert(chars@.subrange(0, n as int) =~= address@);
    }
    let spans = split_fields(&chars, 0, n, ':');
    if spans.len() < 2 {
        return Err(InvalidAddress::MissingPort);
    }
    let port_span = spans[spans.len() - 1];
    proof {
        assert(spans@[spans@.len() - 2 + 1].start == spans@[spans@.len() - 2].end + 1);
    }
    match read_numeral(&chars, port_span.start, port_span.end, 10, 65535) {
        Numeral::Malformed => Err(InvalidAddress::InvalidPort),
        Numeral::TooLarge => Err(InvalidAddress::PortOutOfRange),
        Numeral::Value(port) => {
            proof {
                assert(address@.subrange(0, port_span.start - 1) =~= chars@.subrange(
                    0,
                    port_span.start - 1,
                ));
            }
            match parse_host(&chars, 0, port_span.start - 1) {
                Some(host) => Ok(Endpoint { host, port: port as u16 }),
                None => Err(InvalidAddress::InvalidHost),
            }
        },
    }
}

/// Whether every group is a 16-bit number.
pub open spec fn groups_in_range(w: Seq<int>) -> bool {
    forall|i: int| 0 <= i < w.len() ==> 0 <= #[trigger] w[i] <= 0xFFFF
}

/// A dotted quad denotes a 32-bit number.
pub proof fn lemma_ipv4_fits(t: Seq<char>)
    requires
        ipv4_of(t) is Some,
    ensures
        0 <= ipv4_of(t)->0 <= 0xFFFF_FFFF,
{
    let f = fields(t, '.');
    lemma_value_nonnegative(f[0], 10);
    lemma_value_nonnegative(f[1], 10);
    lemma_value_nonnegative(f[2], 10);
    lemma_value_nonnegative(f[3], 10);
}

/// The groups that a list of fields denotes are 16-bit numbers.
pub proof fn lemma_groups_fit(f: Seq<Seq<char>>, quad_allowed: bool)
    requires
        groups_of_fields(f, quad_allowed) is Some,
    ensures
        groups_in_range(groups_of_fields(f, quad_allowed)->0),
    decreases f.len(),
{
    if f.len() > 0 {
        lemma_groups_fit(f.drop_last(), false);
        let front = groups_of_fields(f.drop_last(), false)->0;
        let all = groups_of_fields(f, quad_allowed)->0;
        if hex_group_of(f.last()) is Some {
            lemma_hex_group_fits(f.last());
            assert forall|i: int| 0 <= i < all.len() implies 0 <= #[trigger] all[i] <= 0xFFFF by {
                if i < front.len() {
                    assert(all[i] == front[i]);
                }
            }
        } else {
            lemma_ipv4_fits(f.last());
            assert forall|i: int| 0 <= i < all.len() implies 0 <= #[trigger] all[i] <= 0xFFFF by {
                if i < front.len() {
                    assert(all[i] == front[i]);
                }
            }
        }
    }
}

/// Up to eight 16-bit groups make a number of as many times 16 bits.
pub proof fn lemma_pack_fits(w: Seq<int>)
    requires
        groups_in_range(w),
        w.len() <= 8,
    ensures
        0 <= pack(w),
        w.len() == 0 ==> pack(w) == 0,
        w.len() == 1 ==> pack(w) <= 0xFFFF,
        w.len() == 2 ==> pack(w) <= 0xFFFF_FFFF,
        w.len() == 3 ==> pack(w) <= 0xFFFF_FFFF_FFFF,
        w.len() == 4 ==> pack(w) <= 0xFFFF_FFFF_FFFF_FFFF,
        w.len() == 5 ==> pack(w) <= 0xFFFF_FFFF_FFFF_FFFF_FFFF,
        w.len() == 6 ==> pack(w) <= 0xFFFF_FFFF_FFFF_FFFF_FFFF_FFFF,
        w.len() == 7 ==> pack(w) <= 0xFFFF_FFFF_FFFF_FFFF_FFFF_FFFF_FFFF,
        w.len() == 8 ==> pack(w) <= 0xFFFF_FFFF_FFFF_FFFF_FFFF_FFFF_FFFF_FFFF,
    decreases w.len(),
{
    if w.len() > 0 {
        let front = w.drop_last();
        assert forall|i: int| 0 <= i < front.len() implies 0 <= #[trigger] front[i] <= 0xFFFF by {
            assert(front[i] == w[i]);
        }
        lemma_pack_fits(front);
        assert(0 <= w[w.len() - 1] <= 0xFFFF);
    }
}

/// An IPv6 literal denotes a 128-bit number.
pub proof fn lemma_ipv6_fits(t: Seq<char>)
    requires
        ipv6_of(t) is Some,
    ensures
        0 <= ipv6_of(t)->0 <= 0xFFFF_FFFF_FFFF_FFFF_FFFF_FFFF_FFFF_FFFF,
{
    match first_gap(t) {
        None => {
            lemma_groups_fit(fields(t, ':'), true);
            lemma_pack_fits(groups_of(t, true)->0);
        },
        Some(g) => {
            let head_text = t.subrange(0, g);
            let tail_text = t.subrange(g + 2, t.len() as int);
            let head = groups_of(head_text, false)->0;
            let tail = groups_of(tail_text, true)->0;
            if head_text.len() > 0 {
                lemma_groups_fit(fields(head_text, ':'), false);
            }
            if tail_text.len() > 0 {
                lemma_groups_fit(fields(tail_text, ':'), true);
            }
            let all = head + zero_groups(8 - head.len() - tail.len()) + tail;
            assert forall|i: int| 0 <= i < all.len() implies 0 <= #[trigger] all[i] <= 0xFFFF by {
                if i < head.len() {
                    assert(all[i] == head[i]);
                } else if i < 8 - tail.len() {
                    assert(all[i] == 0);
                } else {
                    assert(all[i] == tail[i - (8 - tail.len())]);
                }
            }
            lemma_pack_fits(all);
        },
    }
}

/// The endpoint that a text is read as holds exactly the numbers that the
/// grammar gives the text: the port after the last colon, and the address and
/// scope of the host literal before it. Nothing is cut to fit.
pub proof fn lemma_endpoint_is_exact(s: Seq<char>)
    requires
        parse_address(s) is Ok,
    ensures
        ({
            let endpoint = parse_address(s)->Ok_0;
            let port_text = fields(s, ':').last();
            let host_text = s.subrange(0, s.len() - port_text.len() - 1);
            &&& is_numeral(port_text, 10)
            &&& endpoint.port as int == value_in(port_text, 10)
            &&& match endpoint.host {
                Host::V4 { quad } => ipv4_of(host_text) == Some(quad as int),
                Host::V6 { groups, scope_id } => ipv4_of(host_text) is None && bracketed_of(
                    host_text,
                ) == Some((groups as int, scope_id as int)),
            }
        }),
{
    let port_text = fields(s, ':').last();
    let host_text = s.subrange(0, s.len() - port_text.len() - 1);
    lemma_value_nonnegative(port_text, 10);
    if ipv4_of(host_text) is Some {
        lemma_ipv4_fits(host_text);
    } else {
        let parts = fields(host_text.subrange(1, host_text.len() - 1), '%');
        lemma_ipv6_fits(parts[0]);
        if parts.len() == 2 {
            lemma_value_nonnegative(parts[1], 10);
        }
    }
}

} // verus!
