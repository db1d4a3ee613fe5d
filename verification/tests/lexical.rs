use molysite::lexical::{end_of_line, line_ending, scan, CharClass};
use molysite::text::{chars_of, string_of};
use nom::types::CompleteStr;
use nom::IResult;

const SAMPLES: [&str; 16] = [
    "",
    "123abc",
    "abc123",
    "0x1fG",
    "deadBEEF!",
    "  \t x",
    " \r\n\t\n y",
    "\nnext",
    "\r\nnext",
    "\rnext",
    "a_b-c.d e",
    "Zz09_",
    "plain text # here",
    "one\ntwo",
    "one\r\ntwo",
    "_-.",
];

fn taken(result: IResult<CompleteStr, CompleteStr>) -> Option<usize> {
    match result {
        Ok((_, found)) => Some(found.0.chars().count()),
        Err(_) => None,
    }
}

fn run(text: &str, class: CharClass) -> Option<usize> {
    let end = scan(&chars_of(text), 0, class);
    if end == 0 {
        None
    } else {
        Some(end)
    }
}

#[test]
fn runs_agree_with_nom() {
    for sample in SAMPLES.iter() {
        assert_eq!(run(sample, CharClass::Digit), taken(nom::digit(CompleteStr(sample))));
        assert_eq!(run(sample, CharClass::HexDigit), taken(nom::hex_digit(CompleteStr(sample))));
        assert_eq!(run(sample, CharClass::Alphanumeric), taken(nom::alphanumeric(CompleteStr(sample))));
        assert_eq!(run(sample, CharClass::Multispace), taken(nom::multispace(CompleteStr(sample))));
        assert_eq!(run(sample, CharClass::Space), taken(nom::space(CompleteStr(sample))));
    }
}

#[test]
fn line_endings_agree_with_nom() {
    for sample in SAMPLES.iter() {
        assert_eq!(line_ending(&chars_of(sample), 0), taken(nom::eol(CompleteStr(sample))));
    }
    assert_eq!(end_of_line(&chars_of(""), 0), Some(0));
    assert_eq!(end_of_line(&chars_of("x"), 1), Some(1));
    assert_eq!(end_of_line(&chars_of("x"), 0), None);
    assert_eq!(end_of_line(&chars_of("\r\nx"), 0), Some(2));
}

#[test]
fn classes_agree_with_std() {
    for n in 0..=0x10ffffu32 {
        if let Some(c) = char::from_u32(n) {
            assert_eq!(CharClass::Whitespace.has(c), c.is_whitespace());
            assert_eq!(CharClass::Digit.has(c), c.is_ascii_digit());
            assert_eq!(CharClass::HexDigit.has(c), c.is_ascii_hexdigit());
            assert_eq!(CharClass::Alphanumeric.has(c), c.is_ascii_alphanumeric());
            assert_eq!(
                CharClass::Identifier.has(c),
                c.is_ascii_alphanumeric() || c == '_' || c == '-' || c == '.'
            );
            assert_eq!(CharClass::Space.has(c), c == ' ' || c == '\t');
            assert_eq!(CharClass::Multispace.has(c), c == ' ' || c == '\t' || c == '\r' || c == '\n');
            assert_eq!(CharClass::LineText.has(c), c != '\r' && c != '\n');
        }
    }
}

#[test]
fn characters_and_strings_convert() {
    for sample in ["", "abc", "h\u{e9}llo \u{2764}\u{1f600}"].iter() {
        let chars = chars_of(sample);
        assert_eq!(chars, sample.chars().collect::<Vec<char>>());
        assert_eq!(string_of(&chars, 0, chars.len()), *sample);
    }
    let chars = chars_of("h\u{e9}llo");
    assert_eq!(string_of(&chars, 1, 3), "\u{e9}l");
    assert_eq!(string_of(&chars, 2, 2), "");
}
