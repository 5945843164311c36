//! The texts that a rebind request is answered with.

use crate::address::InvalidAddress;
use crate::text::{digit_of, is_digit_in, is_numeral, value_in};
use vstd::prelude::*;
use vstd::string::StringExecFns;

verus! {

/// The character that stands for a decimal digit.
pub open spec fn digit_char(d: nat) -> char {
    if d == 0 {
        '0'
    } else if d == 1 {
        '1'
    } else if d == 2 {
        '2'
    } else if d == 3 {
        '3'
    } else if d == 4 {
        '4'
    } else if d == 5 {
        '5'
    } else if d == 6 {
        '6'
    } else if d == 7 {
        '7'
    } else if d == 8 {
        '8'
    } else {
        '9'
    }
}

/// A number in decimal, without leading zeros.
pub open spec fn decimal_text(n: nat) -> Seq<char>
    decreases n,
{
    if n < 10 {
        seq![digit_char(n)]
    } else {
        decimal_text(n / 10).push(digit_char(n % 10))
    }
}

/// The reply to a request that was accepted, for the given invocation count.
pub open spec fn success_text(count: nat) -> Seq<char> {
    "Hello! This API has been used "@ + decimal_text(count) + " times."@
}

/// The reply to a request whose address was rejected.
pub open spec fn rejection_text(error: InvalidAddress) -> Seq<char> {
    "Invalid address: "@ + error.reason_text()
}

/// One decimal digit as a text.
fn digit_str(d: u32) -> (s: &'static str)
    requires
        d < 10,
    ensures
        s@ == seq![digit_char(d as nat)],
{
    proof {
        reveal_strlit("0");
        reveal_strlit("1");
        reveal_strlit("2");
        reveal_strlit("3");
        reveal_strlit("4");
        reveal_strlit("5");
        reveal_strlit("6");
        reveal_strlit("7");
        reveal_strlit("8");
        reveal_strlit("9");
    }
    let s = if d == 0 {
        "0"
    } else if d == 1 {
        "1"
    } else if d == 2 {
        "2"
    } else if d == 3 {
        "3"
    } else if d == 4 {
        "4"
    } else if d == 5 {
        "5"
    } else if d == 6 {
        "6"
    } else if d == 7 {
        "7"
    } else if d == 8 {
        "8"
    } else {
        "9"
    };
    assert(s@ =~= seq![digit_char(d as nat)]);
    s
}

/// Writes `n` in decimal at the end of `out`.
pub fn append_decimal(out: &mut String, n: u32)
    ensures
        final(out)@ == old(out)@ + decimal_text(n as nat),
    decreases n,
{
    if n >= 10 {
        append_decimal(out, n / 10);
    }
    out.append(digit_str(n % 10));
    assert(final(out)@ =~= old(out)@ + decimal_text(n as nat));
}

/// The reply to a request that was accepted.
pub fn success_reply(count: u32) -> (reply: String)
    ensures
        reply@ == success_text(count as nat),
{
    let mut reply = String::from_str("Hello! This API has been used ");
    append_decimal(&mut reply, count);
    reply.append(" times.");
    reply
}

/// The reply to a request whose address was rejected: it names the reason.
pub fn rejection_reply(error: InvalidAddress) -> (reply: String)
    ensures
        reply@ == rejection_text(error),
{
    let mut reply = String::from_str("Invalid address: ");
    reply.append(error.reason());
    reply
}

/// The decimal text of a number is a numeral, and reads back as that number.
pub proof fn lemma_decimal_text_reads_back(n: nat)
    ensures
        is_numeral(decimal_text(n), 10),
        value_in(decimal_text(n), 10) == n,
    decreases n,
{
    let text = decimal_text(n);
    if n < 10 {
        assert(text.drop_last() =~= Seq::<char>::empty());
        assert(value_in(text.drop_last(), 10) == 0);
        assert(digit_of(text.last()) == n);
    } else {
        lemma_decimal_text_reads_back(n / 10);
        assert(text.drop_last() =~= decimal_text(n / 10));
        assert(digit_of(text.last()) == n % 10);
        assert forall|i: int| 0 <= i < text.len() implies is_digit_in(#[trigger] text[i], 10) by {
            if i < text.len() - 1 {
                assert(text[i] == decimal_text(n / 10)[i]);
            }
        }
    }
}

/// Two success replies are the same text only where they hold the same
/// invocation count.
pub proof fn lemma_success_text_names_count(a: nat, b: nat)
    requires
        success_text(a) == success_text(b),
    ensures
        a == b,
{
    let head = "Hello! This API has been used "@;
    let tail = " times."@;
    let da = decimal_text(a);
    let db = decimal_text(b);
    assert(success_text(a).len() == head.len() + da.len() + tail.len());
    assert(success_text(b).len() == head.len() + db.len() + tail.len());
    assert(da =~= success_text(a).subrange(head.len() as int, (head.len() + da.len()) as int));
    assert(db =~= success_text(b).subrange(head.len() as int, (head.len() + db.len()) as int));
    lemma_decimal_text_reads_back(a);
    lemma_decimal_text_reads_back(b);
}

} // verus!
