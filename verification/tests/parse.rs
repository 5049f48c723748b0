use random_walk::parse::{group, parse_line, parse_number, parse_rows, space};
use random_walk::{parse_config, Config, Sets};

fn chars(text: &str) -> Vec<char> {
    text.chars().collect()
}

#[test]
fn numbers_are_read_in_base_ten() {
    assert_eq!(parse_number(&chars("0")), Some(0));
    assert_eq!(parse_number(&chars("7")), Some(7));
    assert_eq!(parse_number(&chars("1905")), Some(1905));
    assert_eq!(parse_number(&chars("0042")), Some(42));
}

#[test]
fn a_leading_plus_is_accepted_once() {
    assert_eq!(parse_number(&chars("+12")), Some(12));
    assert_eq!(parse_number(&chars("+")), None);
    assert_eq!(parse_number(&chars("++1")), None);
    assert_eq!(parse_number(&chars("1+")), None);
}

#[test]
fn what_is_no_number_is_refused() {
    assert_eq!(parse_number(&chars("")), None);
    assert_eq!(parse_number(&chars("-1")), None);
    assert_eq!(parse_number(&chars("-0")), None);
    assert_eq!(parse_number(&chars("12a")), None);
    assert_eq!(parse_number(&chars("1.5")), None);
    assert_eq!(parse_number(&chars("0x10")), None);
    // digits of other scripts are no digits here
    assert_eq!(parse_number(&chars("\u{0663}")), None);
}

#[test]
fn the_largest_number_is_read_and_the_next_is_not() {
    let max = usize::MAX.to_string();
    assert_eq!(parse_number(&chars(&max)), Some(usize::MAX));
    assert_eq!(parse_number(&chars(&format!("000{}", max))), Some(usize::MAX));
    let mut over = max.clone().into_bytes();
    let last = over.len() - 1;
    over[last] += 1;
    let over = String::from_utf8(over).unwrap();
    assert_eq!(parse_number(&chars(&over)), None);
    assert_eq!(parse_number(&chars(&format!("{}0", max))), None);
    assert_eq!(parse_number(&chars(&format!("{}x", max))), None);
}

#[test]
fn numbers_agree_with_the_standard_parser() {
    for token in ["0", "15", "+15", "+", "", "-3", "007", "9x", "18446744073709551616", " 1"] {
        assert_eq!(parse_number(&chars(token)), token.parse::<usize>().ok(), "{:?}", token);
    }
}

#[test]
fn white_space_is_what_unicode_says() {
    for code in 0..=0x3100u32 {
        if let Some(c) = char::from_u32(code) {
            assert_eq!(space(c), c.is_whitespace(), "U+{:04X}", code);
        }
    }
    assert!(!space('\u{10FFFF}'));
}

#[test]
fn a_line_is_cut_at_white_space() {
    assert_eq!(parse_line(&chars("1 2 3")), Some(vec![1, 2, 3]));
    assert_eq!(parse_line(&chars("  10\t20\r")), Some(vec![10, 20]));
    assert_eq!(parse_line(&chars("4\u{00A0}5\u{3000}6")), Some(vec![4, 5, 6]));
    assert_eq!(parse_line(&chars("7")), Some(vec![7]));
}

#[test]
fn a_line_without_tokens_is_an_empty_row() {
    assert_eq!(parse_line(&chars("")), Some(vec![]));
    assert_eq!(parse_line(&chars(" \t \r")), Some(vec![]));
}

#[test]
fn one_bad_token_spoils_the_line() {
    assert_eq!(parse_line(&chars("1 two 3")), None);
    assert_eq!(parse_line(&chars("1 2 -3")), None);
    assert_eq!(parse_line(&chars("1,2")), None);
}

#[test]
fn a_text_is_cut_into_lines_at_line_feeds() {
    assert_eq!(parse_rows(&chars("")), Some(vec![]));
    assert_eq!(parse_rows(&chars("1 2")), Some(vec![vec![1, 2]]));
    assert_eq!(parse_rows(&chars("1 2\n")), Some(vec![vec![1, 2]]));
    assert_eq!(parse_rows(&chars("1 2\n\n")), Some(vec![vec![1, 2], vec![]]));
    assert_eq!(parse_rows(&chars("\n3")), Some(vec![vec![], vec![3]]));
    assert_eq!(parse_rows(&chars("1\r\n2\r\n")), Some(vec![vec![1], vec![2]]));
    assert_eq!(parse_rows(&chars("1\nx\n2")), None);
}

#[test]
fn an_empty_row_ends_a_block() {
    let rows = vec![vec![1, 2], vec![3], vec![], vec![4]];
    assert_eq!(group(&rows), Sets(vec![vec![vec![1, 2], vec![3]], vec![vec![4]]]));
}

#[test]
fn the_last_block_is_kept_unless_it_is_empty() {
    assert_eq!(group(&vec![]), Sets(vec![]));
    assert_eq!(group(&vec![vec![1]]), Sets(vec![vec![vec![1]]]));
    assert_eq!(group(&vec![vec![1], vec![]]), Sets(vec![vec![vec![1]]]));
    assert_eq!(group(&vec![vec![], vec![]]), Sets(vec![vec![], vec![]]));
    assert_eq!(group(&vec![vec![], vec![2]]), Sets(vec![vec![], vec![vec![2]]]));
}

#[test]
fn a_park_description_is_read_whole() {
    let text = "4 3\n1 2 5\n2 3 1\n3 4 7\n\n1 1\n1 4\n1 2\n";
    let sets = parse_config(text).unwrap();
    assert_eq!(
        sets,
        Sets(vec![
            vec![vec![4, 3], vec![1, 2, 5], vec![2, 3, 1], vec![3, 4, 7]],
            vec![vec![1, 1], vec![1, 4], vec![1, 2]],
        ])
    );
    assert!(sets.is_well_formed());
    let config = Config::build(sets);
    assert_eq!(config.inters.len(), 4);
    assert!(config.inters[0].well);
    assert!(config.inters[3].exit);
    assert_eq!(config.starting_pos, 1);
    assert_eq!(config.alleys[2].length, 7);
}

#[test]
fn a_description_with_a_bad_token_is_refused() {
    assert_eq!(parse_config("4 3\n1 2 five\n"), None);
    assert_eq!(parse_config("1 -1"), None);
}

#[test]
fn an_empty_text_describes_nothing() {
    assert_eq!(parse_config(""), Some(Sets(vec![])));
    assert_eq!(parse_config("\n"), Some(Sets(vec![vec![]])));
    assert_eq!(parse_config("   "), Some(Sets(vec![vec![]])));
}
