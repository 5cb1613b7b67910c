use quadcore::letters::can_convert;
use quadcore::{number_to_letters, word_to_numbers, InputLine};

#[test]
fn a_number_is_read_as_one_number() {
    assert_eq!(InputLine::from("86455"), InputLine::OneNum(86455));
    assert_eq!(InputLine::from("0"), InputLine::OneNum(0));
    assert_eq!(InputLine::from("007"), InputLine::OneNum(7));
    assert_eq!(InputLine::from("+5"), InputLine::OneNum(5));
    assert_eq!(InputLine::from(usize::MAX.to_string().as_str()), InputLine::OneNum(usize::MAX));
}

#[test]
fn four_letters_are_read_as_a_word_in_upper_case() {
    assert_eq!(InputLine::from("abcd"), InputLine::Text("ABCD".to_string()));
    assert_eq!(InputLine::from("WoRd"), InputLine::Text("WORD".to_string()));
}

#[test]
fn four_numbers_between_commas_are_read_as_such() {
    assert_eq!(InputLine::from("8,6,45,5"), InputLine::FourNums([8, 6, 45, 5]));
    assert_eq!(InputLine::from("0,0,0,0"), InputLine::FourNums([0, 0, 0, 0]));
}

#[test]
fn other_lines_are_unknown() {
    assert_eq!(InputLine::from(""), InputLine::Unknown);
    assert_eq!(InputLine::from("abc"), InputLine::Unknown);
    assert_eq!(InputLine::from("abcde"), InputLine::Unknown);
    assert_eq!(InputLine::from("ab1d"), InputLine::Unknown);
    assert_eq!(InputLine::from("1,2,3"), InputLine::Unknown);
    assert_eq!(InputLine::from("1,2,3,4,5"), InputLine::Unknown);
    assert_eq!(InputLine::from("1,2,x,4"), InputLine::Unknown);
    assert_eq!(InputLine::from("1,2,,4"), InputLine::Unknown);
    assert_eq!(InputLine::from("1, 2, 3, 4"), InputLine::Unknown);
    assert_eq!(InputLine::from(" 12"), InputLine::Unknown);
    assert_eq!(InputLine::from("-12"), InputLine::Unknown);
    assert_eq!(InputLine::from("+"), InputLine::Unknown);
    assert_eq!(InputLine::from("1_000"), InputLine::Unknown);
    assert_eq!(InputLine::from(",,,"), InputLine::Unknown);
}

#[test]
fn a_number_too_large_for_the_word_is_no_number() {
    let too_large = format!("{}0", usize::MAX);
    assert_eq!(InputLine::from(too_large.as_str()), InputLine::Unknown);
}

#[test]
fn the_parts_decide_in_order() {
    let fields = vec![Some(1), Some(2), Some(3), Some(4)];
    assert_eq!(
        InputLine::from_parts(Some(7), Some("WORD".to_string()), &fields),
        InputLine::OneNum(7)
    );
    assert_eq!(
        InputLine::from_parts(None, Some("WORD".to_string()), &fields),
        InputLine::Text("WORD".to_string())
    );
    assert_eq!(InputLine::from_parts(None, None, &fields), InputLine::FourNums([1, 2, 3, 4]));
    assert_eq!(
        InputLine::from_parts(None, None, &vec![Some(1), None, Some(3), Some(4)]),
        InputLine::Unknown
    );
    assert_eq!(
        InputLine::from_parts(None, None, &vec![Some(1), Some(2), Some(3)]),
        InputLine::Unknown
    );
    assert_eq!(InputLine::from_parts(None, None, &vec![]), InputLine::Unknown);
}

#[test]
fn letters_stand_for_their_place_in_the_alphabet() {
    assert_eq!(word_to_numbers("ABCD"), [1, 2, 3, 4]);
    assert_eq!(word_to_numbers("WXYZ"), [23, 24, 25, 26]);
    assert_eq!(word_to_numbers("CORE"), [3, 15, 18, 5]);
}

#[test]
fn numbers_from_1_to_26_have_letters() {
    assert_eq!(number_to_letters(1), Some('A'));
    assert_eq!(number_to_letters(18), Some('R'));
    assert_eq!(number_to_letters(26), Some('Z'));
    assert_eq!(number_to_letters(0), None);
    assert_eq!(number_to_letters(27), None);
    assert_eq!(number_to_letters(usize::MAX), None);
}

#[test]
fn letters_go_round() {
    for k in 1..=26usize {
        let letter = number_to_letters(k).unwrap();
        let word = format!("{letter}{letter}A{letter}");
        assert!(can_convert(&word));
        assert_eq!(word_to_numbers(&word), [k, k, 1, k]);
    }
}

#[test]
fn words_that_cannot_be_converted() {
    assert!(can_convert("ABCD"));
    assert!(can_convert("abcd"));
    assert!(!can_convert("ABC"));
    assert!(!can_convert("ABCDE"));
    assert!(!can_convert("AB1D"));
    assert!(!can_convert("AB D"));
    assert!(!can_convert(""));
}

#[test]
fn other_characters_count_from_their_low_byte() {
    // 'a' is 97, and 'É' is U+00C9
    assert_eq!(word_to_numbers("aAÉA"), [33, 1, 0xC9 - 64, 1]);
}
