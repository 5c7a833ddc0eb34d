//! Numbers in decimal digits, as settings and replies spell them.

use vstd::prelude::*;

verus! {

/// The number that the decimal digit `c` stands for.
pub open spec fn digit_of(c: char) -> Option<nat> {
    if '0' <= c && c <= '9' {
        Some((c as u32 - '0' as u32) as nat)
    } else {
        None
    }
}

/// The number that `text` spells in decimal digits, where it is made of
/// digits alone and has at least one.
pub open spec fn decimal_of(text: Seq<char>) -> Option<nat>
    decreases text.len(),
{
    if text.len() == 0 {
        None
    } else {
        match digit_of(text.last()) {
            Some(digit) => if text.len() == 1 {
                Some(digit)
            } else {
                match decimal_of(text.drop_last()) {
                    Some(higher) => Some(higher * 10 + digit),
                    None => None,
                }
            },
            None => None,
        }
    }
}

/// The character of the decimal digit `digit`.
pub open spec fn digit_char(digit: nat) -> char {
    (digit + '0' as nat) as char
}

/// `number` in decimal digits, most significant first: no sign, and no
/// leading zero but for zero itself.
pub open spec fn decimal_digits(number: nat) -> Seq<char>
    decreases number,
{
    if number < 10 {
        seq![digit_char(number)]
    } else {
        decimal_digits(number / 10).push(digit_char(number % 10))
    }
}

/// A number spelled with more digits is no smaller than the number spelled
/// by the first of them.
pub proof fn lemma_decimal_grows(text: Seq<char>, read: int)
    requires
        1 <= read <= text.len(),
        decimal_of(text).is_some(),
    ensures
        decimal_of(text.take(read)).is_some(),
        decimal_of(text.take(read)).unwrap() <= decimal_of(text).unwrap(),
    decreases text.len(),
{
    if read < text.len() {
        assert(text.drop_last().take(read) =~= text.take(read));
        lemma_decimal_grows(text.drop_last(), read);
    } else {
        assert(text.take(read) =~= text);
    }
}

/// Where the first digits of a text spell no number, the text spells none.
pub proof fn lemma_decimal_needs_digits(text: Seq<char>, read: int)
    requires
        1 <= read <= text.len(),
        decimal_of(text.take(read)).is_none(),
    ensures
        decimal_of(text).is_none(),
    decreases text.len(),
{
    if read < text.len() {
        assert(text.drop_last().take(read) =~= text.take(read));
        lemma_decimal_needs_digits(text.drop_last(), read);
    } else {
        assert(text.take(read) =~= text);
    }
}

/// The decimal digits of a number spell that number.
pub proof fn lemma_decimal_digits_spell(number: nat)
    ensures
        decimal_of(decimal_digits(number)) == Some(number),
        decimal_digits(number).len() >= 1,
    decreases number,
{
    if number >= 10 {
        lemma_decimal_digits_spell(number / 10);
        let digits = decimal_digits(number);
        assert(digits.drop_last() =~= decimal_digits(number / 10));
        assert(digit_of(digit_char(number % 10)) == Some(number % 10));
    } else {
        assert(digit_of(digit_char(number)) == Some(number));
    }
}

} // verus!
