use calculator::error::CalcError;
use calculator::literal::parse_value;
use calculator::whitespace::{is_whitespace, remove_whitespace};

fn chars(text: &str) -> Vec<char> {
    text.chars().collect()
}

fn text_of(text: &str) -> Result<String, CalcError> {
    parse_value(&chars(text)).map(|literal| literal.text().iter().collect())
}

#[test]
fn a_number_keeps_its_digits() {
    assert_eq!(text_of("42"), Ok("42".to_string()));
    assert_eq!(text_of("007"), Ok("007".to_string()));
    assert_eq!(text_of("3.25"), Ok("3.25".to_string()));
}

#[test]
fn every_comma_is_replaced() {
    assert_eq!(text_of("3,25"), Ok("3.25".to_string()));
    assert_eq!(text_of(",5"), Ok(".5".to_string()));
    assert_eq!(text_of("5,"), Ok("5.".to_string()));
}

#[test]
fn a_number_needs_a_digit() {
    assert_eq!(text_of(""), Err(CalcError::LiteralParse));
    assert_eq!(text_of("."), Err(CalcError::LiteralParse));
    assert_eq!(text_of(","), Err(CalcError::LiteralParse));
}

#[test]
fn a_number_has_one_decimal_point_at_most() {
    assert_eq!(text_of("1.2.3"), Err(CalcError::LiteralParse));
    assert_eq!(text_of("1,2.3"), Err(CalcError::LiteralParse));
    assert_eq!(text_of("1.."), Err(CalcError::LiteralParse));
    assert_eq!(text_of("..1"), Err(CalcError::LiteralParse));
}

#[test]
fn a_number_has_no_stray_characters() {
    assert_eq!(text_of("1a"), Err(CalcError::LiteralParse));
    assert_eq!(text_of("-1"), Err(CalcError::LiteralParse));
    assert_eq!(text_of("1 2"), Err(CalcError::LiteralParse));
    assert_eq!(text_of("1e5"), Err(CalcError::LiteralParse));
    assert_eq!(text_of("٣"), Err(CalcError::LiteralParse));
}

#[test]
fn every_number_is_a_floating_point_number() {
    for text in ["0", "5.", ".5", "12.50", "123456789012345678901234567890.5"] {
        let literal = parse_value(&chars(text)).unwrap();
        let written: String = literal.text().iter().collect();
        assert!(written.parse::<f64>().is_ok());
    }
    assert_eq!(text_of("12,50").unwrap().parse::<f64>(), Ok(12.5));
}

#[test]
fn a_copy_of_a_number_equals_it() {
    let literal = parse_value(&chars("1,5")).unwrap();
    assert_eq!(literal.clone(), literal);
}

#[test]
fn white_space_is_removed() {
    assert_eq!(remove_whitespace("2 + 3"), "2+3");
    assert_eq!(remove_whitespace(" 2\t+\n3\r\n"), "2+3");
    assert_eq!(remove_whitespace("2\u{a0}+\u{2003}3"), "2+3");
    assert_eq!(remove_whitespace("   "), "");
    assert_eq!(remove_whitespace(""), "");
}

#[test]
fn other_characters_stay_in_their_order() {
    assert_eq!(remove_whitespace("(1,5 - x) * 2"), "(1,5-x)*2");
    assert_eq!(remove_whitespace("abc"), "abc");
}

#[test]
fn removing_white_space_twice_changes_nothing_more() {
    let once = remove_whitespace(" 1 + 2 ");
    assert_eq!(remove_whitespace(once.as_str()), once);
}

#[test]
fn white_space_is_what_the_standard_library_calls_so() {
    for code in 0..=0x10ffff_u32 {
        if let Some(c) = char::from_u32(code) {
            assert_eq!(is_whitespace(c), c.is_whitespace(), "U+{:04X}", code);
        }
    }
}

#[test]
fn removing_white_space_joins_what_splitting_at_it_leaves() {
    for text in ["2 + 3", " 1,5\t*( 2 - 3 )\n", "\u{2003}a\u{3000}b\u{85}", "", "x"] {
        let joined: String = text.split_whitespace().collect();
        assert_eq!(remove_whitespace(text), joined);
    }
}

fn texts_over(alphabet: &[char], length: usize) -> Vec<Vec<char>> {
    let mut texts = vec![Vec::new()];
    let mut longest = vec![Vec::new()];
    for _ in 0..length {
        let mut longer = Vec::new();
        for text in &longest {
            for c in alphabet {
                let mut next: Vec<char> = text.clone();
                next.push(*c);
                longer.push(next);
            }
        }
        texts.extend(longer.iter().cloned());
        longest = longer;
    }
    texts
}

#[test]
fn a_number_is_what_the_standard_library_reads_as_one() {
    for text in texts_over(&['0', '7', '.', ','], 6) {
        let replaced: String = text.iter().collect::<String>().replace(",", ".");
        let read = parse_value(&text);
        assert_eq!(read.is_ok(), replaced.parse::<f64>().is_ok(), "{:?}", replaced);
        if let Ok(literal) = read {
            let kept: String = literal.text().iter().collect();
            assert_eq!(kept, replaced);
        }
    }
}
