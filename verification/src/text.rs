//! Assembling text.

use vstd::prelude::*;

verus! {

/// The decimal digit for `d`.
pub open spec fn digit(d: nat) -> char
    recommends
        d < 10,
{
    ('0' as u32 + d) as char
}

/// The decimal representation of `value`, without leading zeros.
pub open spec fn decimal(value: nat) -> Seq<char>
    decreases value,
{
    if value < 10 {
        seq![digit(value)]
    } else {
        decimal(value / 10).push(digit(value % 10))
    }
}

/// The decimal digits of `value`.
pub fn digits(value: u64) -> (text: String)
    ensures
        text@ == decimal(value as nat),
    decreases value,
{
    let last: &str = match value % 10 {
        0 => "0",
        1 => "1",
        2 => "2",
        3 => "3",
        4 => "4",
        5 => "5",
        6 => "6",
        7 => "7",
        8 => "8",
        _ => "9",
    };
    proof {
        reveal_strlit("0");
        reveal_strlit("1");
        reveal_strlit("2");
        reveal_strlit("3");
        reveal_strlit("4");
        reveal_strlit("5");
        reveal_strlit("6");
        reveal_strlit("7");
        reveal_strlit("8");
        reveal_strlit("9");
        assert(last@ =~= seq![digit(value as nat % 10)]);
    }
    if value < 10 {
        last.to_owned()
    } else {
        let mut text = digits(value / 10);
        text.append(last);
        assert(text@ =~= decimal(value as nat));
        text
    }
}

/// `head` followed by `tail`.
pub fn joined(head: &str, tail: &str) -> (text: String)
    ensures
        text@ == head@ + tail@,
{
    let mut text = head.to_owned();
    text.append(tail);
    text
}

// ---------------------------------------------------------------- laws

/// The number that decimal digits stand for.
pub open spec fn numeral(text: Seq<char>) -> int
    decreases text.len(),
{
    if text.len() == 0 {
        0
    } else {
        10 * numeral(text.drop_last()) + (text.last() as u32 - '0' as u32)
    }
}

/// Digits stand for the number that they were written of, and do not start with a zero unless the number
/// is zero.
pub proof fn law_digits_stand_for_their_number(value: u64, text: String)
    requires
        call_ensures(digits, (value,), text),
    ensures
        numeral(text@) == value,
        text@.len() > 0,
        forall|i: int| 0 <= i < text@.len() ==> '0' <= #[trigger] text@[i] <= '9',
        value > 0 ==> text@[0] != '0',
{
    lemma_decimal(value as nat);
}

/// The decimal representation of a number stands for the number.
proof fn lemma_decimal(value: nat)
    ensures
        numeral(decimal(value)) == value,
        decimal(value).len() > 0,
        forall|i: int| 0 <= i < decimal(value).len() ==> '0' <= #[trigger] decimal(value)[i] <= '9',
        value > 0 ==> decimal(value)[0] != '0',
    decreases value,
{
    reveal_with_fuel(numeral, 2);
    let text = decimal(value);
    if value < 10 {
        assert(text.drop_last() =~= Seq::<char>::empty());
        assert(text.last() == digit(value));
    } else {
        lemma_decimal(value / 10);
        assert(text.drop_last() =~= decimal(value / 10));
        assert(text.last() == digit(value % 10));
        assert(text[0] == decimal(value / 10)[0]);
        assert forall|i: int| 0 <= i < text.len() implies '0' <= #[trigger] text[i] <= '9' by {
            if i < text.len() - 1 {
                assert(text[i] == decimal(value / 10)[i]);
            }
        }
    }
}

/// Joined text is the head and then the tail.
pub proof fn law_joined_text_is_both(head: &str, tail: &str, text: String)
    requires
        call_ensures(joined, (head, tail), text),
    ensures
        text@.len() == head@.len() + tail@.len(),
        text@.take(head@.len() as int) == head@,
        text@.skip(head@.len() as int) == tail@,
{
    assert(text@.take(head@.len() as int) =~= head@);
    assert(text@.skip(head@.len() as int) =~= tail@);
}

} // verus!
