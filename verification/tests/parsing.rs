use graph_metrics::parsing::{parse_edge_line, parse_number, space, split_words};

fn chars(text: &str) -> Vec<char> {
    text.chars().collect()
}

#[test]
fn a_line_of_two_numbers_is_an_edge() {
    assert_eq!(parse_edge_line("0 1"), Some((0, 1)));
    assert_eq!(parse_edge_line("12\t34"), Some((12, 34)));
    assert_eq!(parse_edge_line("  7   9  "), Some((7, 9)));
    assert_eq!(parse_edge_line("4294967295 0"), Some((4294967295, 0)));
    assert_eq!(parse_edge_line("+5 007"), Some((5, 7)));
    assert_eq!(parse_edge_line("3\u{a0}4"), Some((3, 4)));
    assert_eq!(parse_edge_line("3\u{3000}4\r"), Some((3, 4)));
}

#[test]
fn other_lines_are_no_edge() {
    assert_eq!(parse_edge_line(""), None);
    assert_eq!(parse_edge_line("   "), None);
    assert_eq!(parse_edge_line("5"), None);
    assert_eq!(parse_edge_line("1 2 3"), None);
    assert_eq!(parse_edge_line("a b"), None);
    assert_eq!(parse_edge_line("1 b"), None);
    assert_eq!(parse_edge_line("-1 2"), None);
    assert_eq!(parse_edge_line("1.5 2"), None);
    assert_eq!(parse_edge_line("4294967296 1"), None);
    assert_eq!(parse_edge_line("1 99999999999999999999999999"), None);
    assert_eq!(parse_edge_line("+ 1"), None);
    assert_eq!(parse_edge_line("1,2"), None);
    assert_eq!(parse_edge_line("# 1 2"), None);
    assert_eq!(parse_edge_line("1 \u{663}"), None);
}

#[test]
fn edge_lines_agree_with_the_standard_parser() {
    let lines = [
        "0 1", "10 20", " 5\t6 ", "+1 +2", "00 09", "4294967295 4294967295", "4294967296 0",
        "x 1", "1 x", "1", "", "1 2 3", "-0 1", "1e3 2", "0x1 2", "1 2\u{2003}", "\u{85}8 9",
        "１ 2", "1_0 2", "++1 2",
    ];
    for line in lines {
        let words: Vec<&str> = line.split_whitespace().collect();
        let expected = if words.len() == 2 {
            match (words[0].parse::<u32>(), words[1].parse::<u32>()) {
                (Ok(a), Ok(b)) => Some((a, b)),
                _ => None,
            }
        } else {
            None
        };
        assert_eq!(parse_edge_line(line), expected);
    }
}

#[test]
fn white_space_is_what_the_standard_says() {
    for code in 0u32..0x11000 {
        if let Some(c) = char::from_u32(code) {
            assert_eq!(space(c), c.is_whitespace());
        }
    }
}

#[test]
fn words_are_runs_without_white_space() {
    assert_eq!(split_words(" ab  c\td "), vec![chars("ab"), chars("c"), chars("d")]);
    assert_eq!(split_words("one"), vec![chars("one")]);
    assert_eq!(split_words(""), Vec::<Vec<char>>::new());
    assert_eq!(split_words(" \n "), Vec::<Vec<char>>::new());
}

#[test]
fn numbers_are_digits_within_range() {
    assert_eq!(parse_number(&chars("0")), Some(0));
    assert_eq!(parse_number(&chars("42")), Some(42));
    assert_eq!(parse_number(&chars("+42")), Some(42));
    assert_eq!(parse_number(&chars("0000000000042")), Some(42));
    assert_eq!(parse_number(&chars("4294967295")), Some(u32::MAX));
    assert_eq!(parse_number(&chars("4294967296")), None);
    assert_eq!(parse_number(&chars("")), None);
    assert_eq!(parse_number(&chars("+")), None);
    assert_eq!(parse_number(&chars("4 2")), None);
    assert_eq!(parse_number(&chars("42a")), None);
    assert_eq!(parse_number(&chars("-42")), None);
}
