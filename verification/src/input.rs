//! Reading a line of input: as one number, as a word of four letters, or as
//! four numbers between commas.

use vstd::prelude::*;
use vstd::std_specs::convert::FromSpecImpl;

verus! {

/// A line of input, by what it was read as.
#[derive(Debug, PartialEq, Eq)]
pub enum InputLine {
    OneNum(usize),
    FourNums([usize; 4]),
    Text(String),
    Unknown,
}

/// What a line of input is read as.
pub enum Reading {
    OneNum(usize),
    FourNums(Seq<usize>),
    Text(Seq<char>),
    Unknown,
}

impl View for InputLine {
    type V = Reading;

    open spec fn view(&self) -> Reading {
        match self {
            InputLine::OneNum(n) => Reading::OneNum(*n),
            InputLine::FourNums(q) => Reading::FourNums(q@),
            InputLine::Text(word) => Reading::Text(word@),
            InputLine::Unknown => Reading::Unknown,
        }
    }
}

/// Whether `c` is one of the ten decimal digits.
pub open spec fn is_digit(c: char) -> bool {
    '0' <= c <= '9'
}

/// The number that a decimal digit stands for; other characters count as 0.
pub open spec fn digit_value(c: char) -> nat {
    if is_digit(c) {
        (c as int - '0' as int) as nat
    } else {
        0
    }
}

/// The number that a sequence of decimal digits spells.
pub open spec fn decimal_value(digits: Seq<char>) -> nat
    decreases digits.len(),
{
    if digits.len() == 0 {
        0
    } else {
        10 * decimal_value(digits.drop_last()) + digit_value(digits.last())
    }
}

/// A numeral without the plus sign that may stand in front of it.
pub open spec fn unsigned_part(s: Seq<char>) -> Seq<char> {
    if s.len() > 0 && s[0] == '+' {
        s.skip(1)
    } else {
        s
    }
}

/// The number that `s` writes: `s` is one or more decimal digits, with or
/// without a plus sign in front, and the number fits the machine word.
pub open spec fn number_of(s: Seq<char>) -> Option<usize> {
    let digits = unsigned_part(s);
    if digits.len() > 0 && (forall|i: int| 0 <= i < digits.len() ==> is_digit(#[trigger] digits[i]))
        && decimal_value(digits) <= usize::MAX {
        Some(decimal_value(digits) as usize)
    } else {
        None
    }
}

/// The fields of `s`: what stands before, between and after its commas.
pub open spec fn comma_fields(s: Seq<char>) -> Seq<Seq<char>>
    decreases s.len(),
{
    if s.len() == 0 {
        seq![s]
    } else {
        let before = comma_fields(s.drop_last());
        if s.last() == ',' {
            before.push(Seq::empty())
        } else {
            before.drop_last().push(before.last().push(s.last()))
        }
    }
}

/// Whether Unicode counts `c` as alphabetic.
pub uninterp spec fn is_alphabetic(c: char) -> bool;

/// `s` in upper case, by Unicode's rules.
pub uninterp spec fn uppercase_of(s: Seq<char>) -> Seq<char>;

/// The word that `s` writes: `s` in upper case, where `s` is four
/// alphabetic characters.
pub open spec fn word_of(s: Seq<char>) -> Option<Seq<char>> {
    if s.len() == 4 && (forall|i: int| 0 <= i < 4 ==> is_alphabetic(#[trigger] s[i])) {
        Some(uppercase_of(s))
    } else {
        None
    }
}

/// The numbers that the fields of `s` write.
pub open spec fn field_numbers(s: Seq<char>) -> Seq<Option<usize>> {
    comma_fields(s).map_values(|field: Seq<char>| number_of(field))
}

/// The reading of a line of which `number` is the number it writes, `word`
/// the word it writes and `fields` the numbers its fields write: the number
/// if there is one, else the word if there is one, else the four numbers if
/// there are four fields and each writes one.
pub open spec fn chosen(
    number: Option<usize>,
    word: Option<Seq<char>>,
    fields: Seq<Option<usize>>,
) -> Reading {
    match (number, word) {
        (Some(n), _) => Reading::OneNum(n),
        (None, Some(w)) => Reading::Text(w),
        (None, None) => if fields.len() == 4 && fields[0].is_some() && fields[1].is_some()
            && fields[2].is_some() && fields[3].is_some() {
            Reading::FourNums(
                seq![
                    fields[0].unwrap(),
                    fields[1].unwrap(),
                    fields[2].unwrap(),
                    fields[3].unwrap(),
                ],
            )
        } else {
            Reading::Unknown
        },
    }
}

/// The reading of the line `s`.
pub open spec fn reading(s: Seq<char>) -> Reading {
    chosen(number_of(s), word_of(s), field_numbers(s))
}

/// The characters of a field list as sequences.
pub open spec fn texts(fields: Seq<Vec<char>>) -> Seq<Seq<char>> {
    fields.map_values(|field: Vec<char>| field@)
}

/// Digits spell no smaller a number than the first `k` of them do.
proof fn lemma_decimal_value_grows(digits: Seq<char>, k: int)
    requires
        0 <= k <= digits.len(),
    ensures
        decimal_value(digits.take(k)) <= decimal_value(digits),
    decreases digits.len(),
{
    if k == digits.len() {
        assert(digits.take(k) =~= digits);
    } else {
        lemma_decimal_value_grows(digits.drop_last(), k);
        assert(digits.drop_last().take(k) =~= digits.take(k));
    }
}

/// The characters of `s`.
fn chars_of(s: &str) -> (chars: Vec<char>)
    ensures
        chars@ == s@,
{
    let mut chars: Vec<char> = Vec::new();
    for c in it: s.chars()
        invariant
            it.seq() == s@,
            chars@ == s@.take(it.index() as int),
    {
        chars.push(c);
        assert(s@.take(it.index() + 1) =~= s@.take(it.index() as int).push(c));
    }
    assert(s@.take(s@.len() as int) =~= s@);
    chars
}

/// The code of a character.
fn code_of(c: char) -> (code: u32)
    ensures
        code == c as int,
{
    c as u32
}

/// The number that `s` writes, if it writes one.
fn parse_number(s: &Vec<char>) -> (r: Option<usize>)
    ensures
        r == number_of(s@),
{
    let len = s.len();
    let start: usize = if len > 0 && s[0] == '+' {
        1
    } else {
        0
    };
    if start == len {
        return None;
    }
    let ghost digits = unsigned_part(s@);
    let mut value: usize = 0;
    let mut i: usize = start;
    assert(digits.take(0) =~= Seq::empty());
    while i < len
        invariant
            start <= i <= len,
            len == s@.len(),
            digits == s@.skip(start as int),
            digits == unsigned_part(s@),
            forall|j: int| 0 <= j < i - start ==> is_digit(#[trigger] digits[j]),
            value == decimal_value(digits.take(i - start)),
        decreases len - i,
    {
        let code: u32 = code_of(s[i]);
        assert(digits[i - start] == s@[i as int]);
        if code < 48 || code > 57 {
            return None;
        }
        let digit: usize = (code - 48) as usize;
        proof {
            let longer = digits.take(i - start + 1);
            assert(longer.drop_last() =~= digits.take(i - start));
            assert(longer.last() == s@[i as int]);
            assert(decimal_value(longer) == 10 * value + digit);
            lemma_decimal_value_grows(digits, i - start + 1);
        }
        let tenfold = match value.checked_mul(10) {
            Some(tenfold) => tenfold,
            None => {
                return None;
            },
        };
        value = match tenfold.checked_add(digit) {
            Some(sum) => sum,
            None => {
                return None;
            },
        };
        i = i + 1;
    }
    assert(digits.take(i - start) =~= digits);
    Some(value)
}

/// The fields of `s` between its commas.
fn split_at_commas(s: &Vec<char>) -> (fields: Vec<Vec<char>>)
    ensures
        texts(fields@) == comma_fields(s@),
{
    let mut fields: Vec<Vec<char>> = Vec::new();
    let mut field: Vec<char> = Vec::new();
    let mut i: usize = 0;
    assert(s@.take(0) =~= Seq::empty());
    assert(texts(fields@).push(field@) =~= seq![Seq::<char>::empty()]);
    while i < s.len()
        invariant
            i <= s@.len(),
            texts(fields@).push(field@) == comma_fields(s@.take(i as int)),
        decreases s@.len() - i,
    {
        let c = s[i];
        let ghost before = texts(fields@).push(field@);
        proof {
            let longer = s@.take(i + 1);
            assert(longer.drop_last() =~= s@.take(i as int));
            assert(longer.last() == c);
        }
        if c == ',' {
            fields.push(field);
            field = Vec::new();
            assert(texts(fields@).push(field@) =~= before.push(Seq::empty()));
        } else {
            field.push(c);
            assert(texts(fields@).push(field@) =~= before.drop_last().push(
                before.last().push(c),
            ));
        }
        i = i + 1;
    }
    assert(s@.take(s@.len() as int) =~= s@);
    let ghost before = texts(fields@).push(field@);
    fields.push(field);
    assert(texts(fields@) =~= before);
    fields
}

/// Whether `c` is alphabetic.
///
/// Trusted: calls `char::is_alphabetic`, whose result is named, not stated.
#[verifier::external_body]
fn char_is_alphabetic(c: char) -> (r: bool)
    ensures
        r == is_alphabetic(c),
{
    c.is_alphabetic()
}

/// `s` in upper case.
///
/// Trusted: calls `str::to_uppercase`, whose result is named, not stated.
#[verifier::external_body]
fn to_uppercase(s: &str) -> (r: String)
    ensures
        r@ == uppercase_of(s@),
{
    s.to_uppercase()
}

/// The word that `line`, whose characters are `chars`, writes, if it
/// writes one.
fn read_word(line: &str, chars: &Vec<char>) -> (r: Option<String>)
    requires
        chars@ == line@,
    ensures
        match r {
            Some(word) => word_of(line@) == Some(word@),
            None => word_of(line@).is_none(),
        },
{
    if chars.len() != 4 {
        return None;
    }
    let mut i: usize = 0;
    while i < 4
        invariant
            i <= 4,
            chars@.len() == 4,
            chars@ == line@,
            forall|j: int| 0 <= j < i ==> is_alphabetic(#[trigger] line@[j]),
        decreases 4 - i,
    {
        if !char_is_alphabetic(chars[i]) {
            return None;
        }
        i = i + 1;
    }
    Some(to_uppercase(line))
}

/// The numbers that the fields of `chars` write.
fn read_fields(chars: &Vec<char>) -> (r: Vec<Option<usize>>)
    ensures
        r@ == field_numbers(chars@),
{
    let fields = split_at_commas(chars);
    let mut numbers: Vec<Option<usize>> = Vec::new();
    let mut i: usize = 0;
    while i < fields.len()
        invariant
            i <= fields@.len(),
            texts(fields@) == comma_fields(chars@),
            numbers@.len() == i,
            forall|j: int|
                0 <= j < i ==> #[trigger] numbers@[j] == number_of(comma_fields(chars@)[j]),
        decreases fields@.len() - i,
    {
        let number = parse_number(&fields[i]);
        assert(texts(fields@)[i as int] == fields@[i as int]@);
        numbers.push(number);
        i = i + 1;
    }
    assert(numbers@ =~= field_numbers(chars@));
    numbers
}

impl InputLine {
    /// The reading of a line from what its parts write: see `chosen`.
    pub fn from_parts(number: Option<usize>, word: Option<String>, fields: &Vec<Option<usize>>) -> (r:
        InputLine)
        ensures
            r@ == chosen(
                number,
                match word {
                    Some(w) => Some(w@),
                    None => None,
                },
                fields@,
            ),
    {
        if let Some(n) = number {
            return InputLine::OneNum(n);
        }
        if let Some(w) = word {
            return InputLine::Text(w);
        }
        if fields.len() == 4 {
            match (fields[0], fields[1], fields[2], fields[3]) {
                (Some(a), Some(b), Some(c), Some(d)) => {
                    let quad: [usize; 4] = [a, b, c, d];
                    assert(quad@ =~= seq![a, b, c, d]);
                    return InputLine::FourNums(quad);
                },
                _ => {},
            }
        }
        InputLine::Unknown
    }
}

impl<'a> FromSpecImpl<&'a str> for InputLine {
    open spec fn obeys_from_spec() -> bool {
        false
    }

    open spec fn from_spec(line: &'a str) -> InputLine {
        InputLine::Unknown
    }
}

impl<'a> From<&'a str> for InputLine {
    /// Reads a line: see `reading`.
    fn from(line: &'a str) -> (r: InputLine)
        ensures
            r@ == reading(line@),
    {
        let chars = chars_of(line);
        let number = parse_number(&chars);
        let word = read_word(line, &chars);
        let fields = read_fields(&chars);
        InputLine::from_parts(number, word, &fields)
    }
}

} // verus!
