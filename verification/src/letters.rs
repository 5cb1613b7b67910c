//! Letters as operands: A stands for 1, B for 2, and so on up to Z for 26.

use itertools::Itertools;
use vstd::prelude::*;

verus! {

/// The lowest eight bits of a character's code.
pub open spec fn low_byte(c: char) -> int {
    (c as int) % 256
}

/// The number that a character stands for: its low byte counted from `A`,
/// which stands for 1.
pub open spec fn letter_value(c: char) -> int {
    low_byte(c) - 64
}

/// The letter that stands for `k`, for `k` from 1 to 26.
pub open spec fn letter_of(k: int) -> Option<char> {
    if 1 <= k <= 26 {
        Some((64 + k) as char)
    } else {
        None
    }
}

/// `word` has four characters, none of which would stand for less than 1.
pub open spec fn is_word(word: Seq<char>) -> bool {
    word.len() == 4 && forall|i: int| 0 <= i < 4 ==> letter_value(#[trigger] word[i]) >= 1
}

/// Letter round trip: each number from 1 to 26 has a letter, and that
/// letter stands for the number; no other number has a letter.
pub proof fn lemma_letter_round_trip(k: int)
    ensures
        1 <= k <= 26 ==> letter_of(k).is_some() && letter_value(letter_of(k).unwrap()) == k,
        !(1 <= k <= 26) ==> letter_of(k).is_none(),
{
}

/// The four items of `items` as an array.
///
/// Trusted: calls `itertools::Itertools::collect_array` on the items. The
/// contract claims that it returns the items in an array where there are
/// exactly four, and nothing otherwise.
#[verifier::external_body]
fn collect_array(items: Vec<usize>) -> (r: Option<[usize; 4]>)
    ensures
        r.is_some() <==> items@.len() == 4,
        r.is_some() ==> r.unwrap()@ == items@,
{
    items.into_iter().collect_array()
}

/// The lowest eight bits of a character's code.
fn byte_of(c: char) -> (b: u8)
    ensures
        b == low_byte(c),
{
    (c as u32 % 256) as u8
}

/// Whether `word` can be turned into operands: see `is_word`.
pub fn can_convert(word: &str) -> (r: bool)
    ensures
        r == is_word(word@),
{
    if word.unicode_len() != 4 {
        return false;
    }
    let mut i: usize = 0;
    while i < 4
        invariant
            i <= 4,
            word@.len() == 4,
            forall|j: int| 0 <= j < i ==> letter_value(#[trigger] word@[j]) >= 1,
        decreases 4 - i,
    {
        let c = word.get_char(i);
        if byte_of(c) < 65 {
            return false;
        }
        i = i + 1;
    }
    true
}

/// The operands that the four letters of `word` stand for.
pub fn word_to_numbers(word: &str) -> (r: [usize; 4])
    requires
        is_word(word@),
    ensures
        forall|i: int| 0 <= i < 4 ==> r@[i] == letter_value(#[trigger] word@[i]),
{
    let mut numbers: Vec<usize> = Vec::new();
    let mut i: usize = 0;
    while i < 4
        invariant
            i <= 4,
            is_word(word@),
            numbers@.len() == i,
            forall|j: int| 0 <= j < i ==> numbers@[j] == letter_value(#[trigger] word@[j]),
        decreases 4 - i,
    {
        let c = word.get_char(i);
        numbers.push((byte_of(c) - 65 + 1) as usize);
        i = i + 1;
    }
    collect_array(numbers).unwrap()
}

/// The letter that stands for `num`, where it is between 1 and 26.
pub fn number_to_letters(num: usize) -> (r: Option<char>)
    ensures
        r == letter_of(num as int),
{
    if num > 0 && num < 27 {
        Some((65 + (num as u8) - 1) as char)
    } else {
        None
    }
}

} // verus!
