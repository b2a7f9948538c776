//! Decimal numerals: writing a number and reading one.

use vstd::prelude::*;
use crate::text::{is_ascii_digit, is_digit};

verus! {

/// The character of the decimal digit `d`.
pub open spec fn digit(d: nat) -> char
    recommends
        d < 10,
{
    (48 + d) as char
}

/// The decimal numeral of `n`, without leading zeros.
pub open spec fn decimal(n: nat) -> Seq<char>
    decreases n,
{
    if n < 10 {
        seq![digit(n)]
    } else {
        decimal(n / 10).push(digit(n % 10))
    }
}

/// The one-character text of the digit `d`.
fn digit_text(d: usize) -> (text: &'static str)
    requires
        d < 10,
    ensures
        text@ == seq![digit(d as nat)],
{
    proof {
        reveal_strlit("0");
        reveal_strlit("1");
        reveal_strlit("2");
        reveal_strlit("3");
        reveal_strlit("4");
        reveal_strlit("5");
        reveal_strlit("6");
        reveal_strlit("7");
        reveal_strlit("8");
        reveal_strlit("9");
    }
    let text = if d == 0 {
        "0"
    } else if d == 1 {
        "1"
    } else if d == 2 {
        "2"
    } else if d == 3 {
        "3"
    } else if d == 4 {
        "4"
    } else if d == 5 {
        "5"
    } else if d == 6 {
        "6"
    } else if d == 7 {
        "7"
    } else if d == 8 {
        "8"
    } else {
        "9"
    };
    assert(text@ =~= seq![digit(d as nat)]);
    text
}

/// Writes `n` as a decimal numeral.
pub fn decimal_text(n: usize) -> (text: String)
    ensures
        text@ == decimal(n as nat),
    decreases n,
{
    if n < 10 {
        digit_text(n).to_owned()
    } else {
        let mut text = decimal_text(n / 10);
        text.append(digit_text(n % 10));
        text
    }
}

/// Whether `text` is a numeral: one decimal digit or more, and nothing else.
pub open spec fn is_numeral(text: Seq<char>) -> bool {
    &&& text.len() > 0
    &&& forall|i: int| 0 <= i < text.len() ==> is_digit(#[trigger] text[i])
}

/// The number that the numeral `text` stands for.
pub open spec fn decimal_value(text: Seq<char>) -> nat
    decreases text.len(),
{
    if text.len() == 0 {
        0
    } else {
        (decimal_value(text.drop_last()) * 10 + (text.last() as u32 - 48)) as nat
    }
}

/// The numeral of a number is a numeral, and it stands for that number.
pub proof fn lemma_decimal_round_trip(n: nat)
    ensures
        is_numeral(decimal(n)),
        decimal_value(decimal(n)) == n,
    decreases n,
{
    if n < 10 {
        let text = decimal(n);
        assert(text.drop_last() =~= Seq::<char>::empty());
        assert(decimal_value(text.drop_last()) == 0);
    } else {
        lemma_decimal_round_trip(n / 10);
        let head = decimal(n / 10);
        let text = decimal(n);
        assert(text.drop_last() =~= head);
        assert forall|i: int| 0 <= i < text.len() implies is_digit(#[trigger] text[i]) by {
            if i < head.len() {
                assert(text[i] == head[i]);
            }
        }
    }
}

/// Reads the numeral `chars[from..to]`, if it is one and stands for no more
/// than `limit`.
pub fn parse_decimal(chars: &Vec<char>, from: usize, to: usize, limit: u16) -> (r: Option<u16>)
    requires
        from <= to <= chars.len(),
    ensures
        r == if is_numeral(chars@.subrange(from as int, to as int)) && decimal_value(
            chars@.subrange(from as int, to as int),
        ) <= limit {
            Some(decimal_value(chars@.subrange(from as int, to as int)) as u16)
        } else {
            None
        },
{
    let ghost text = chars@.subrange(from as int, to as int);
    if from == to {
        return None;
    }
    // `value` follows the numeral read so far and stops one past `limit`.
    let bound: u32 = limit as u32 + 1;
    let mut value: u32 = 0;
    let mut i: usize = from;
    while i < to
        invariant
            from <= i <= to <= chars.len(),
            text == chars@.subrange(from as int, to as int),
            bound == limit + 1,
            forall|k: int| 0 <= k < i - from ==> is_digit(#[trigger] text[k]),
            value == if decimal_value(text.take(i - from)) <= limit {
                decimal_value(text.take(i - from))
            } else {
                bound as nat
            },
        decreases to - i,
    {
        let c = chars[i];
        assert(text[i - from] == c);
        if !is_ascii_digit(c) {
            return None;
        }
        proof {
            let longer = text.take(i - from + 1);
            assert(longer.drop_last() =~= text.take(i - from));
            assert(longer.last() == c);
        }
        let d: u32 = c as u32 - 48;
        if value < bound {
            let next: u32 = value * 10 + d;
            value = if next < bound {
                next
            } else {
                bound
            };
        }
        i = i + 1;
    }
    assert(text.take(to - from) =~= text);
    if value < bound {
        Some(value as u16)
    } else {
        None
    }
}

} // verus!
