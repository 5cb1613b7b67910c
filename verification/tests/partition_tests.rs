use quadcore::partition::balanced_splits;
use quadcore::{extract_digit, split_numstring};

#[test]
fn test_numstring() {
    assert_eq!(split_numstring(86455), [8, 6, 45, 5]);
    assert_eq!(split_numstring(3614), [3, 6, 1, 4]);
}

#[test]
fn test_extract_digit() {
    assert_eq!(extract_digit(0, 1), 0, "0@1 = 0");
    assert_eq!(extract_digit(1, 1), 1, "1@1 = 1");
    assert_eq!(extract_digit(10, 1), 1, "10@1 = 1");
    assert_eq!(extract_digit(10, 2), 0, "10@2 = 0");
    assert_eq!(extract_digit(123456, 1), 1, "123456@1 = 1");
    assert_eq!(extract_digit(123456, 2), 2, "123456@1 = 2");
    assert_eq!(extract_digit(123456, 3), 3, "123456@3 = 3");
}

#[test]
fn extract_digit_of_zero_is_zero_everywhere() {
    assert_eq!(extract_digit(0, 2), 0);
    assert_eq!(extract_digit(0, 7), 0);
    assert_eq!(extract_digit(0, u32::MAX), 0);
}

#[test]
fn extract_digit_reaches_the_last_digit() {
    assert_eq!(extract_digit(123456, 6), 6);
    assert_eq!(extract_digit(9, 1), 9);
    assert_eq!(extract_digit(usize::MAX, 1), 1);
    assert_eq!(extract_digit(usize::MAX, 2), 8);
}

#[test]
fn layouts_of_four_equal_lengths() {
    assert_eq!(balanced_splits(4), vec![vec![1, 1, 1, 1]]);
    assert_eq!(balanced_splits(8), vec![vec![2, 2, 2, 2]]);
}

#[test]
fn layouts_with_one_longer_group() {
    assert_eq!(
        balanced_splits(5),
        vec![vec![1, 1, 1, 2], vec![1, 1, 2, 1], vec![1, 2, 1, 1], vec![2, 1, 1, 1]]
    );
}

#[test]
fn layouts_with_two_longer_groups() {
    assert_eq!(
        balanced_splits(6),
        vec![
            vec![1, 1, 2, 2],
            vec![1, 2, 1, 2],
            vec![1, 2, 2, 1],
            vec![2, 1, 1, 2],
            vec![2, 1, 2, 1],
            vec![2, 2, 1, 1]
        ]
    );
}

#[test]
fn layouts_with_three_longer_groups() {
    assert_eq!(
        balanced_splits(7),
        vec![vec![1, 2, 2, 2], vec![2, 1, 2, 2], vec![2, 2, 1, 2], vec![2, 2, 2, 1]]
    );
}

#[test]
fn split_of_six_digits() {
    // 1+2+34+56, 1+23+4+56, 1+23+45+6, 12+3+4+56, 12+3+45+6, 12+34+5+6
    assert_eq!(split_numstring(123456), [12, 34, 5, 6]);
}

#[test]
fn split_of_seven_digits() {
    assert_eq!(split_numstring(1234567), [12, 34, 56, 7]);
}

#[test]
fn split_of_eight_digits() {
    assert_eq!(split_numstring(12345678), [12, 34, 56, 78]);
}

#[test]
fn split_of_the_smallest_number() {
    assert_eq!(split_numstring(1000), [1, 0, 0, 0]);
}

#[test]
fn split_of_the_largest_number() {
    let n = usize::MAX;
    let digits = n.to_string();
    let quad = split_numstring(n);
    let sum: usize = quad.iter().sum();
    assert!(sum < n);
    let spelled: String = quad.iter().map(|g| g.to_string()).collect();
    assert_eq!(spelled.len(), digits.len());
    assert_eq!(spelled, digits);
}

#[test]
fn equal_sums_keep_the_first_layout() {
    assert_eq!(split_numstring(11111), [1, 1, 1, 11]);
    assert_eq!(split_numstring(111111), [1, 1, 11, 11]);
    assert_eq!(split_numstring(1111111), [1, 11, 11, 11]);
}

#[test]
fn split_has_the_least_sum() {
    // the four layouts of 86455: 8+6+4+55, 8+6+45+5, 8+64+5+5, 86+4+5+5
    let sum: usize = split_numstring(86455).iter().sum();
    assert_eq!(sum, 64);
    assert!(sum <= 8 + 6 + 4 + 55);
    assert!(sum <= 8 + 64 + 5 + 5);
    assert!(sum <= 86 + 4 + 5 + 5);
}

#[test]
fn digits_of_the_groups_spell_the_number() {
    for n in [86455usize, 3614, 123456, 1234567, 98765432, 4711, 999999999] {
        let spelled: String = split_numstring(n).iter().map(|g| g.to_string()).collect();
        assert_eq!(spelled, n.to_string());
    }
}

#[test]
fn a_group_of_zeros_is_a_single_zero() {
    // 1 | 0 | 0 | 05: the last group has two digits and the value 5
    assert_eq!(split_numstring(10005), [1, 0, 0, 5]);
}

#[test]
fn split_agrees_with_cutting_the_written_number() {
    for n in (1000usize..30000).chain([123456, 7000000, 10203040, 999999999, 1000000000]) {
        let written = n.to_string();
        let small = written.len() / 4;
        let mut best: Option<[usize; 4]> = None;
        for layout in balanced_splits(written.len() as u32) {
            assert_eq!(layout.iter().sum::<u32>() as usize, written.len());
            assert!(layout.iter().all(|&len| len as usize == small || len as usize == small + 1));
            let mut quad = [0usize; 4];
            let mut at = 0;
            for (group, len) in layout.iter().enumerate() {
                quad[group] = written[at..at + *len as usize].parse().unwrap();
                at += *len as usize;
            }
            let better = match best {
                Some(b) => quad.iter().sum::<usize>() < b.iter().sum::<usize>(),
                None => true,
            };
            if better {
                best = Some(quad);
            }
        }
        assert_eq!(split_numstring(n), best.unwrap());
    }
}

#[test]
fn every_digit_is_found_at_its_place() {
    for n in [7usize, 10, 99, 100, 4711, 86455, 1000000, usize::MAX] {
        let written = n.to_string();
        for (place, digit) in written.chars().enumerate() {
            assert_eq!(
                extract_digit(n, place as u32 + 1),
                digit.to_digit(10).unwrap() as usize
            );
        }
    }
}
