use mandelbrot::gcd::{gcd, gcd_of_all};
use mandelbrot::input::{parse_numbers, parse_pair, split_first};

#[test]
fn gcd_of_two() {
    assert_eq!(gcd(14, 15), 1);
    assert_eq!(gcd(2 * 3 * 5 * 11 * 17, 3 * 7 * 11 * 13 * 19), 3 * 11);
    assert_eq!(gcd(12, 12), 12);
    assert_eq!(gcd(1, u64::MAX), 1);
    assert_eq!(gcd(u64::MAX, u64::MAX), u64::MAX);
}

#[test]
fn gcd_is_symmetric() {
    assert_eq!(gcd(48, 18), 6);
    assert_eq!(gcd(18, 48), 6);
}

#[test]
fn gcd_of_a_list() {
    assert_eq!(gcd_of_all(&vec![42]), 42);
    assert_eq!(gcd_of_all(&vec![12, 18, 30]), 6);
    assert_eq!(gcd_of_all(&vec![7, 11, 13]), 1);
}

#[test]
fn numbers_parse_in_order() {
    let values = vec!["12".to_string(), "+18".to_string(), "30".to_string()];
    assert_eq!(parse_numbers(&values), Ok(vec![12, 18, 30]));
}

#[test]
fn first_bad_number_is_reported() {
    let values = vec!["12".to_string(), "x".to_string(), "-3".to_string()];
    assert_eq!(parse_numbers(&values), Err(1));
    let values = vec!["18446744073709551616".to_string()];
    assert_eq!(parse_numbers(&values), Err(0));
    let values = vec![" 4".to_string()];
    assert_eq!(parse_numbers(&values), Err(0));
}

#[test]
fn no_numbers_parse_to_empty_list() {
    assert_eq!(parse_numbers(&vec![]), Ok(vec![]));
}

#[test]
fn pair_parses_both_sides() {
    assert_eq!(parse_pair("1000x750", 'x'), Some((1000, 750)));
    assert_eq!(parse_pair("10,20", ','), Some((10, 20)));
}

#[test]
fn pair_rejects_malformed_text() {
    assert_eq!(parse_pair("", ','), None);
    assert_eq!(parse_pair("10,", ','), None);
    assert_eq!(parse_pair(",10", ','), None);
    assert_eq!(parse_pair("10,20,30", ','), None);
    assert_eq!(parse_pair("1000x750", ','), None);
}

#[test]
fn single_entry_is_its_own_gcd() {
    assert_eq!(gcd_of_all(&vec![0]), 0);
    assert_eq!(gcd_of_all(&vec![u64::MAX]), u64::MAX);
}

#[test]
fn split_at_first_separator_only() {
    assert_eq!(split_first("-1.20,0.35", ','), Some(("-1.20", "0.35")));
    assert_eq!(split_first("a,b,c", ','), Some(("a", "b,c")));
    assert_eq!(split_first(",", ','), Some(("", "")));
    assert_eq!(split_first("abc", ','), None);
    assert_eq!(split_first("", ','), None);
}
