//! Character-level helpers shared by the address grammar and the reply texts:
//! digits and numbers in a radix, and the fields of a separated text.

use vstd::prelude::*;

verus! {

/// The value of `c` as a digit: 0 to 9 for decimal digits, 10 to 15 for the
/// letters `a` to `f` in either case, and -1 for every other character.
pub open spec fn digit_of(c: char) -> int {
    let n = c as int;
    if 48 <= n <= 57 {
        n - 48
    } else if 97 <= n <= 102 {
        n - 87
    } else if 65 <= n <= 70 {
        n - 55
    } else {
        -1
    }
}

/// Whether `c` is a digit of the given radix.
pub open spec fn is_digit_in(c: char, radix: int) -> bool {
    0 <= digit_of(c) < radix
}

/// Whether every character of `s` is a digit of the given radix.
pub open spec fn all_digits_in(s: Seq<char>, radix: int) -> bool {
    forall|i: int| 0 <= i < s.len() ==> is_digit_in(#[trigger] s[i], radix)
}

/// The number that the digits of `s` denote in the given radix, most
/// significant digit first. The empty text denotes 0.
pub open spec fn value_in(s: Seq<char>, radix: int) -> int
    decreases s.len(),
{
    if s.len() == 0 {
        0
    } else {
        value_in(s.drop_last(), radix) * radix + digit_of(s.last())
    }
}

/// Whether `s` is a numeral of the given radix: at least one digit, and
/// nothing but digits.
pub open spec fn is_numeral(s: Seq<char>, radix: int) -> bool {
    s.len() > 0 && all_digits_in(s, radix)
}

/// A numeral never denotes less than any of its prefixes.
pub proof fn lemma_value_grows(s: Seq<char>, radix: int, k: int)
    requires
        radix >= 1,
        all_digits_in(s, radix),
        0 <= k <= s.len(),
    ensures
        0 <= value_in(s.subrange(0, k), radix) <= value_in(s, radix),
    decreases s.len() - k,
{
    if k == s.len() {
        assert(s.subrange(0, k) =~= s);
        lemma_value_nonnegative(s, radix);
    } else {
        let longer = s.subrange(0, k + 1);
        assert(longer.drop_last() =~= s.subrange(0, k));
        assert(longer.last() == s[k]);
        lemma_value_grows(s, radix, k + 1);
        lemma_value_nonnegative(s.subrange(0, k), radix);
        let v = value_in(s.subrange(0, k), radix);
        assert(v * radix >= v) by (nonlinear_arith)
            requires
                v >= 0,
                radix >= 1,
        ;
    }
}

/// A text made of digits denotes no negative number.
pub proof fn lemma_value_nonnegative(s: Seq<char>, radix: int)
    requires
        radix >= 1,
        all_digits_in(s, radix),
    ensures
        value_in(s, radix) >= 0,
    decreases s.len(),
{
    if s.len() > 0 {
        lemma_value_nonnegative(s.drop_last(), radix);
        let v = value_in(s.drop_last(), radix);
        assert(v * radix >= 0) by (nonlinear_arith)
            requires
                v >= 0,
                radix >= 1,
        ;
    }
}

/// The fields of `s`: the stretches between its separators, in order. A text
/// with `n` separators has `n + 1` fields, some of which may be empty.
pub open spec fn fields(s: Seq<char>, sep: char) -> Seq<Seq<char>>
    decreases s.len(),
{
    if s.len() == 0 {
        seq![Seq::<char>::empty()]
    } else {
        let before = fields(s.drop_last(), sep);
        if s.last() == sep {
            before.push(Seq::<char>::empty())
        } else {
            before.drop_last().push(before.last().push(s.last()))
        }
    }
}

/// The text that the given fields make when a separator is put between
/// neighbours.
pub open spec fn joined(parts: Seq<Seq<char>>, sep: char) -> Seq<char>
    decreases parts.len(),
{
    if parts.len() == 0 {
        Seq::<char>::empty()
    } else if parts.len() == 1 {
        parts[0]
    } else {
        joined(parts.drop_last(), sep).push(sep) + parts.last()
    }
}

/// The fields of a text are what the text is made of: no field holds a
/// separator, and the fields joined by separators are the text again.
pub proof fn lemma_fields_make_the_text(s: Seq<char>, sep: char)
    ensures
        fields(s, sep).len() >= 1,
        joined(fields(s, sep), sep) == s,
        forall|k: int, i: int|
            0 <= k < fields(s, sep).len() && 0 <= i < fields(s, sep)[k].len() ==> (
            #[trigger] fields(s, sep)[k][i]) != sep,
    decreases s.len(),
{
    let parts = fields(s, sep);
    if s.len() == 0 {
        assert(joined(parts, sep) =~= s);
    } else {
        let shorter = s.drop_last();
        let before = fields(shorter, sep);
        lemma_fields_make_the_text(shorter, sep);
        if s.last() == sep {
            assert(parts.drop_last() =~= before);
            assert(joined(parts, sep) =~= s);
            assert forall|k: int, i: int|
                0 <= k < parts.len() && 0 <= i < parts[k].len() implies (#[trigger] parts[k][i])
                != sep by {
                assert(parts[k] == before[k]);
            }
        } else {
            let grown = before.last().push(s.last());
            if before.len() == 1 {
                assert(joined(parts, sep) =~= s);
            } else {
                let front = joined(before.drop_last(), sep).push(sep);
                assert(parts.drop_last() =~= before.drop_last());
                assert(parts.last() == grown);
                assert(joined(before, sep) == front + before.last());
                assert(joined(parts, sep) == front + grown);
                assert(front + grown =~= (front + before.last()).push(s.last()));
                assert(shorter.push(s.last()) =~= s);
            }
            assert forall|k: int, i: int|
                0 <= k < parts.len() && 0 <= i < parts[k].len() implies (#[trigger] parts[k][i])
                != sep by {
                if k < parts.len() - 1 {
                    assert(parts[k] == before[k]);
                } else if i < before.last().len() {
                    assert(parts[k][i] == before[k][i]);
                }
            }
        }
    }
}

/// Copies the characters of `s` into a vector, so that they can be indexed in
/// constant time.
pub(crate) fn chars_of(s: &str) -> (v: Vec<char>)
    ensures
        v@ == s@,
{
    let mut v: Vec<char> = Vec::new();
    for c in it: s.chars()
        invariant
            v@ == it.seq().subrange(0, it.index() as int),
            it.seq() == s@,
    {
        v.push(c);
    }
    v
}

/// The digit that `c` stands for, or 255 where it is no digit of radix 16.
pub(crate) fn digit_of_char(c: char) -> (d: u8)
    ensures
        digit_of(c) >= 0 ==> d as int == digit_of(c),
        digit_of(c) < 0 ==> d == 255,
{
    let n: u32 = c as u32;
    if 48 <= n && n <= 57 {
        (n - 48) as u8
    } else if 97 <= n && n <= 102 {
        (n - 87) as u8
    } else if 65 <= n && n <= 70 {
        (n - 55) as u8
    } else {
        255
    }
}

/// What a stretch of text is when read as a number with an upper bound.
#[derive(Clone, Copy, Debug, PartialEq, Eq, Structural)]
pub enum Numeral {
    /// The text is empty or holds a character that is no digit.
    Malformed,
    /// The text is a numeral that denotes more than the bound.
    TooLarge,
    /// The text is a numeral that denotes this number, within the bound.
    Value(u64),
}

/// How `s` reads as a number of the given radix that may not exceed `max`.
pub open spec fn numeral_of(s: Seq<char>, radix: int, max: int) -> Numeral {
    if !is_numeral(s, radix) {
        Numeral::Malformed
    } else if value_in(s, radix) > max {
        Numeral::TooLarge
    } else {
        Numeral::Value(value_in(s, radix) as u64)
    }
}

/// Reads the characters from `lo` up to `hi` as a number. Leading zeros are
/// read like any other digit, and the text may be of any length.
pub(crate) fn read_numeral(chars: &Vec<char>, lo: usize, hi: usize, radix: u8, max: u64) -> (r: Numeral)
    requires
        lo <= hi <= chars.len(),
        radix == 10 || radix == 16,
        max <= 0xFFFF_FFFF,
    ensures
        r == numeral_of(chars@.subrange(lo as int, hi as int), radix as int, max as int),
        r matches Numeral::Value(v) ==> v as int == value_in(
            chars@.subrange(lo as int, hi as int),
            radix as int,
        ) && v <= max,
{
    let ghost s = chars@.subrange(lo as int, hi as int);
    if lo == hi {
        return Numeral::Malformed;
    }
    let mut i: usize = lo;
    let mut acc: u64 = 0;
    let mut over: bool = false;
    while i < hi
        invariant
            lo <= i <= hi <= chars.len(),
            radix == 10 || radix == 16,
            max <= 0xFFFF_FFFF,
            s == chars@.subrange(lo as int, hi as int),
            all_digits_in(s.subrange(0, i - lo), radix as int),
            !over ==> acc as int == value_in(s.subrange(0, i - lo), radix as int) && acc <= max,
            over ==> value_in(s.subrange(0, i - lo), radix as int) > max,
        decreases hi - i,
    {
        let d: u8 = digit_of_char(chars[i]);
        if d >= radix {
            assert(!is_digit_in(s[i - lo], radix as int));
            return Numeral::Malformed;
        }
        let ghost shorter = s.subrange(0, i - lo);
        let ghost longer = s.subrange(0, i - lo + 1);
        proof {
            assert(longer.drop_last() =~= shorter);
            assert(longer.last() == s[i - lo]);
            assert(all_digits_in(longer, radix as int)) by {
                assert forall|j: int| 0 <= j < longer.len() implies is_digit_in(
                    #[trigger] longer[j],
                    radix as int,
                ) by {
                    if j < shorter.len() {
                        assert(longer[j] == shorter[j]);
                    }
                }
            }
            lemma_value_grows(longer, radix as int, i - lo);
            assert(longer.subrange(0, i - lo) =~= shorter);
        }
        if !over {
            let next: u64 = acc * (radix as u64) + (d as u64);
            if next > max {
                over = true;
            } else {
                acc = next;
            }
        }
        i = i + 1;
    }
    assert(s.subrange(0, hi - lo) =~= s);
    if over {
        Numeral::TooLarge
    } else {
        Numeral::Value(acc)
    }
}

/// A stretch of a text: the characters from `start` up to, not including,
/// `end`.
#[derive(Clone, Copy, Debug, PartialEq, Eq, Structural)]
pub struct Span {
    pub start: usize,
    pub end: usize,
}

/// Whether `spans` are the places of the given fields in `s`, one after the
/// other from `lo` to `hi` with one separator between neighbours.
pub open spec fn spans_cover(
    s: Seq<char>,
    lo: int,
    hi: int,
    spans: Seq<Span>,
    parts: Seq<Seq<char>>,
) -> bool {
    &&& spans.len() == parts.len()
    &&& spans.len() >= 1
    &&& spans[0].start == lo
    &&& spans.last().end == hi
    &&& forall|k: int|
        0 <= k < spans.len() ==> lo <= (#[trigger] spans[k]).start <= spans[k].end <= hi
    &&& forall|k: int|
        0 <= k < spans.len() ==> s.subrange(
            (#[trigger] spans[k]).start as int,
            spans[k].end as int,
        ) == parts[k]
    &&& forall|k: int| 0 <= k < spans.len() - 1 ==> (#[trigger] spans[k + 1]).start == spans[k].end + 1
}

/// Finds the fields of the characters from `lo` up to `hi`.
pub(crate) fn split_fields(chars: &Vec<char>, lo: usize, hi: usize, sep: char) -> (spans: Vec<Span>)
    requires
        lo <= hi <= chars.len(),
    ensures
        spans_cover(
            chars@,
            lo as int,
            hi as int,
            spans@,
            fields(chars@.subrange(lo as int, hi as int), sep),
        ),
{
    let mut spans: Vec<Span> = Vec::new();
    let mut start: usize = lo;
    let mut i: usize = lo;
    proof {
        assert(chars@.subrange(lo as int, lo as int) =~= Seq::<char>::empty());
    }
    while i < hi
        invariant
            lo <= start <= i <= hi <= chars.len(),
            spans@.len() + 1 == fields(chars@.subrange(lo as int, i as int), sep).len(),
            fields(chars@.subrange(lo as int, i as int), sep).last() == chars@.subrange(
                start as int,
                i as int,
            ),
            spans@.len() == 0 ==> start == lo,
            spans@.len() > 0 ==> spans@[0].start == lo && start == spans@.last().end + 1,
            forall|k: int|
                0 <= k < spans@.len() ==> lo <= (#[trigger] spans@[k]).start <= spans@[k].end < i,
            forall|k: int|
                0 <= k < spans@.len() ==> chars@.subrange(
                    (#[trigger] spans@[k]).start as int,
                    spans@[k].end as int,
                ) == fields(chars@.subrange(lo as int, i as int), sep)[k],
            forall|k: int|
                0 <= k < spans@.len() - 1 ==> (#[trigger] spans@[k + 1]).start == spans@[k].end + 1,
        decreases hi - i,
    {
        let ghost before = fields(chars@.subrange(lo as int, i as int), sep);
        let ghost longer = chars@.subrange(lo as int, i + 1);
        proof {
            assert(longer.drop_last() =~= chars@.subrange(lo as int, i as int));
            assert(longer.last() == chars@[i as int]);
        }
        if chars[i] == sep {
            let ghost old_spans = spans@;
            spans.push(Span { start, end: i });
            start = i + 1;
            proof {
                assert(fields(longer, sep) == before.push(Seq::<char>::empty()));
                assert(chars@.subrange(start as int, i + 1) =~= Seq::<char>::empty());
                assert forall|k: int| 0 <= k < spans@.len() implies chars@.subrange(
                    (#[trigger] spans@[k]).start as int,
                    spans@[k].end as int,
                ) == fields(longer, sep)[k] by {
                    if k < old_spans.len() {
                        assert(spans@[k] == old_spans[k]);
                    }
                }
                assert forall|k: int| 0 <= k < spans@.len() - 1 implies (#[trigger] spans@[k
                    + 1]).start == spans@[k].end + 1 by {
                    if k + 1 < old_spans.len() {
                        assert(spans@[k + 1] == old_spans[k + 1]);
                        assert(spans@[k] == old_spans[k]);
                    }
                }
            }
        } else {
            proof {
                assert(fields(longer, sep) == before.drop_last().push(
                    before.last().push(chars@[i as int]),
                ));
                assert(chars@.subrange(start as int, i + 1) =~= chars@.subrange(
                    start as int,
                    i as int,
                ).push(chars@[i as int]));
            }
        }
        i = i + 1;
    }
    let ghost old_spans = spans@;
    spans.push(Span { start, end: hi });
    proof {
        let parts = fields(chars@.subrange(lo as int, hi as int), sep);
        assert forall|k: int| 0 <= k < spans@.len() implies chars@.subrange(
            (#[trigger] spans@[k]).start as int,
            spans@[k].end as int,
        ) == parts[k] by {
            if k < old_spans.len() {
                assert(spans@[k] == old_spans[k]);
            }
        }
        assert forall|k: int| 0 <= k < spans@.len() - 1 implies (#[trigger] spans@[k + 1]).start
            == spans@[k].end + 1 by {
            if k + 1 < old_spans.len() {
                assert(spans@[k + 1] == old_spans[k + 1]);
                assert(spans@[k] == old_spans[k]);
            }
        }
        assert forall|k: int| 0 <= k < spans@.len() implies lo <= (#[trigger] spans@[k]).start
            <= spans@[k].end <= hi by {
            if k < old_spans.len() {
                assert(spans@[k] == old_spans[k]);
            }
        }
    }
    spans
}

} // verus!
