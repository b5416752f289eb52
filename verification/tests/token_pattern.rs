use regex::Regex;
use rust_s57::data_parser::{parse_token, ParseData, ParseType};

/// What the pattern of a format-control token says of `text`: an optional
/// count, a type letter, an optional width in parentheses. `None` where the
/// pattern does not match, or matches a number that does not convert.
fn by_pattern(pattern: &Regex, text: &str) -> Option<(usize, ParseData)> {
    let cap = pattern.captures(text)?;
    let count = match cap.get(1) {
        Some(c) => c.as_str().parse::<usize>().ok()?,
        None => 1,
    };
    let typ = match cap.get(2).unwrap().as_str() {
        "A" => ParseType::String,
        "I" => ParseType::Integer,
        "R" => ParseType::Float,
        _ => unreachable!(),
    };
    match cap.get(3) {
        None => Some((count, ParseData::Variable(typ))),
        Some(c) => {
            let inner = c.as_str();
            let width = inner[1..inner.len() - 1].parse::<usize>().ok()?;
            Some((count, ParseData::Fixed(typ, width)))
        }
    }
}

#[test]
fn tokens_agree_with_the_pattern_on_chosen_texts() {
    let pattern = Regex::new(r"^(\d+)?([AIR])(\(\d*\))?").unwrap();
    for text in [
        "", "A", "I", "R", "B", "a", "1", "12", "1A", "12I", "0R", "007A", "A(", "A()", "A(1",
        "A(1)", "A(12)", "A(012)", "A(1)(2)", "A(1))", "A(x)", "A(1x)", "A((1))", "A 1", " A",
        "A,I", "2A(3)", "10I(10)", "1R(5)", "(A)", "1(A)", "1 A", "+1A", "-1A", "AA", "AIR",
        "A(3)xyz", "99999999999999999999999999A", "A(99999999999999999999999999)",
        "18446744073709551615A", "A(18446744073709551615)",
    ] {
        assert_eq!(
            parse_token(text.as_bytes()),
            by_pattern(&pattern, text),
            "{:?}",
            text
        );
    }
}

#[test]
fn tokens_agree_with_the_pattern_on_generated_texts() {
    let pattern = Regex::new(r"^(\d+)?([AIR])(\(\d*\))?").unwrap();
    let alphabet = ['0', '1', '9', 'A', 'I', 'R', '(', ')', 'x', ','];
    let mut state: u64 = 0x2545f4914f6cdd1d;
    for _ in 0..20000 {
        let mut text = String::new();
        state = state
            .wrapping_mul(6364136223846793005)
            .wrapping_add(1442695040888963407);
        let len = (state >> 33) % 9;
        for _ in 0..len {
            state = state
                .wrapping_mul(6364136223846793005)
                .wrapping_add(1442695040888963407);
            text.push(alphabet[((state >> 33) % 10) as usize]);
        }
        assert_eq!(
            parse_token(text.as_bytes()),
            by_pattern(&pattern, &text),
            "{:?}",
            text
        );
    }
}
