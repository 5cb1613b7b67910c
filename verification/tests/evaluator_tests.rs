use quadcore::{find_core, fits_native_range, s_div, s_mul, s_sub};

#[test]
fn test_sub() {
    assert_eq!(s_sub(3, Some(1)), Some(2));
    assert_eq!(s_sub(3, None), None);
}

#[test]
fn test_div() {
    assert_eq!(s_div(4, Some(2)), Some(2));
    assert_eq!(s_div(15, Some(5)), Some(3));
    assert_eq!(s_div(15, Some(4)), None);
    assert_eq!(s_div(15, Some(0)), None);
}

#[test]
fn test_core() {
    assert_eq!(find_core([8, 6, 45, 5]), Some(18));
    assert_eq!(find_core([1000, 200, 11, 2]), Some(53));
    assert_eq!(find_core([8, 1, 14, 4]), Some(2));
}

#[test]
fn sub_is_present_only_down_to_zero() {
    assert_eq!(s_sub(3, Some(3)), Some(0));
    assert_eq!(s_sub(3, Some(4)), None);
    assert_eq!(s_sub(0, Some(0)), Some(0));
    assert_eq!(s_sub(0, Some(usize::MAX)), None);
}

#[test]
fn mul_is_present_with_its_operand() {
    assert_eq!(s_mul(3, Some(4)), Some(12));
    assert_eq!(s_mul(3, Some(0)), Some(0));
    assert_eq!(s_mul(0, Some(usize::MAX)), Some(0));
    assert_eq!(s_mul(3, None), None);
}

#[test]
fn div_is_present_only_where_exact() {
    assert_eq!(s_div(0, Some(7)), Some(0));
    assert_eq!(s_div(0, Some(0)), None);
    assert_eq!(s_div(7, Some(7)), Some(1));
    assert_eq!(s_div(7, Some(8)), None);
    assert_eq!(s_div(7, None), None);
    for a in 0..40usize {
        for b in 1..12usize {
            assert_eq!(s_div(a, Some(b)).is_some(), a % b == 0);
            if a % b == 0 {
                assert_eq!(s_div(a, Some(b)), Some(a / b));
            }
        }
    }
}

#[test]
fn core_is_absent_where_no_pattern_stays_whole() {
    assert_eq!(find_core([1, 2, 3, 4]), None);
}

#[test]
fn core_of_zero_is_present() {
    // (5 - 5) * 7 / 1
    assert_eq!(find_core([5, 5, 7, 1]), Some(0));
}

#[test]
fn core_tries_every_pattern() {
    // on each of these only one pattern stays whole
    // (1 - 0) * 2 / 1
    assert_eq!(find_core([1, 0, 2, 1]), Some(2));
    // (1 - 0) * 2 / 1, the product with the last operand
    assert_eq!(find_core([1, 0, 1, 2]), Some(2));
    // (1 * 2 - 0) / 1
    assert_eq!(find_core([1, 2, 0, 1]), Some(2));
    // 1 * 2 / 1 - 0
    assert_eq!(find_core([1, 2, 1, 0]), Some(2));
    // (4 / 1 - 2) * 9
    assert_eq!(find_core([4, 1, 2, 9]), Some(18));
    // 1 * 4 / 2 - 0, the product with the third operand
    assert_eq!(find_core([1, 2, 4, 0]), Some(2));
}

#[test]
fn core_is_the_least_of_the_results() {
    // (9 - 3) * 2 / 1 = 12, (9 - 3) * 1 / 2 = 3, (9 * 3 - 2) / 1 = 25,
    // 9 * 3 / 2 fails, (9 / 3 - 2) * 1 = 1, 9 * 2 / 3 - 1 = 5
    assert_eq!(find_core([9, 3, 2, 1]), Some(1));
}

#[test]
fn range_check_finds_products_that_overflow() {
    assert!(fits_native_range([8, 6, 45, 5]));
    assert!(fits_native_range([0, 0, 0, 0]));
    assert!(!fits_native_range([usize::MAX, 2, 1, 1]));
    assert!(!fits_native_range([usize::MAX, 1, 2, 1]));
    assert!(!fits_native_range([usize::MAX, usize::MAX, 1, 1]));
    // usize::MAX - 1 by 1, less 0, times 2
    assert!(fits_native_range([usize::MAX - 1, 1, 1, 1]));
    assert!(!fits_native_range([usize::MAX - 1, 1, 0, 2]));
}

#[test]
fn core_at_the_edge_of_the_range() {
    assert!(fits_native_range([usize::MAX, 1, 1, 1]));
    assert_eq!(find_core([usize::MAX, 1, 1, 1]), Some(usize::MAX - 1));
}

#[test]
fn core_on_small_operands_is_the_least_whole_result() {
    let whole = |n: usize, d: usize| if d != 0 && n % d == 0 { Some(n / d) } else { None };
    for a in 0..7usize {
        for b in 0..7usize {
            for c in 0..7usize {
                for d in 0..7usize {
                    let mut results: Vec<usize> = Vec::new();
                    if a >= b {
                        results.extend(whole((a - b) * c, d));
                        results.extend(whole((a - b) * d, c));
                    }
                    if a * b >= c {
                        results.extend(whole(a * b - c, d));
                    }
                    results.extend(whole(a * b, c).and_then(|v| v.checked_sub(d)));
                    results.extend(
                        whole(a, b).and_then(|v| v.checked_sub(c)).map(|v| v * d),
                    );
                    results.extend(whole(a * c, b).and_then(|v| v.checked_sub(d)));
                    assert!(fits_native_range([a, b, c, d]));
                    assert_eq!(find_core([a, b, c, d]), results.into_iter().min());
                }
            }
        }
    }
}
