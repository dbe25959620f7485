//! Text functions, held against those of the standard library.

use atp::number;
use atp::order;
use atp::solution;
use atp::text;

fn chars(s: &str) -> Vec<char> {
    s.chars().collect()
}

fn string(s: &[char]) -> String {
    s.iter().collect()
}

const SAMPLES: [&str; 14] = [
    "", " ", "a", " a b ", "a\nb", "a\r\nb\r\n", "\n", "\n\n", "a\r", "==a==", "a,b,,c", ",",
    "\u{3000}x\u{a0}", "caf\u{e9} \u{1f600}",
];

#[test]
fn every_white_space_character_is_known() {
    for number in 0..=0x10ffffu32 {
        if let Some(c) = char::from_u32(number) {
            assert_eq!(text::white(c), c.is_whitespace(), "{number:x}");
        }
    }
}

#[test]
fn characters_change_case_as_ascii_does() {
    for number in 0..0x300u32 {
        let c = char::from_u32(number).unwrap();
        assert_eq!(text::to_lower(c), c.to_ascii_lowercase());
        assert_eq!(text::to_upper(c), c.to_ascii_uppercase());
        assert_eq!(text::letter(c), c.is_ascii_alphabetic());
    }
}

#[test]
fn pieces_are_those_of_the_standard_library() {
    for sample in SAMPLES {
        let s = chars(sample);
        let lines: Vec<String> = text::lines(&s).into_iter().map(string).collect();
        assert_eq!(lines, sample.lines().collect::<Vec<_>>());
        let parts: Vec<String> = text::split_char(&s, ',').into_iter().map(string).collect();
        assert_eq!(parts, sample.split(',').collect::<Vec<_>>());
        let words: Vec<String> = text::words(&s).into_iter().map(string).collect();
        assert_eq!(words, sample.split_whitespace().collect::<Vec<_>>());
        assert_eq!(string(text::trim(&s)), sample.trim());
        assert_eq!(string(text::trim_start(&s)), sample.trim_start());
        assert_eq!(string(text::trim_char(&s, '=')), sample.trim_matches('='));
        assert_eq!(string(&text::lower(&s)), sample.to_ascii_lowercase());
        assert_eq!(text::string_of(&s), sample);
        assert_eq!(text::measure_bytes(&s), sample.len() as u128);
    }
}

#[test]
fn searching_finds_the_first_occurrence() {
    let s = chars("abcabc");
    assert_eq!(text::find(&s, "bc"), Some(1));
    assert_eq!(text::find(&s, "cb"), None);
    assert_eq!(text::find(&s, ""), Some(0));
    assert_eq!(text::rfind_char(&s, 'b'), Some(4));
    assert_eq!(string(&text::replace(&s, "bc", &chars("x"))), "axax");
    assert_eq!(string(&text::replace(&chars("aaa"), "aa", &chars("b"))), "aaa".replace("aa", "b"));
}

#[test]
fn numbers_are_read_as_the_standard_library_reads_them() {
    for sample in ["0", "7", "+7", "-7", "007", "", "+", "++1", "1x", "4294967295", "4294967296"] {
        assert_eq!(
            number::parse_number(&chars(sample), 10, u32::MAX as u64),
            sample.parse::<u32>().ok().map(u64::from),
            "{sample:?}"
        );
    }
    assert_eq!(
        number::parse_number(&chars("18446744073709551615"), 10, u64::MAX),
        Some(u64::MAX)
    );
    assert_eq!(number::parse_number(&chars("18446744073709551616"), 10, u64::MAX), None);
    assert_eq!(number::decimal_string(u64::MAX), u64::MAX.to_string());
    assert_eq!(number::signed_string(i32::MIN), i32::MIN.to_string());
}

#[test]
fn texts_are_ordered_as_the_standard_library_orders_them() {
    for a in SAMPLES {
        for b in SAMPLES {
            assert_eq!(order::comes_before(&chars(a), &chars(b)), a < b);
        }
    }
}

#[test]
fn files_are_read_as_text_whatever_their_bytes() {
    assert_eq!(
        solution::read("a", Ok(b"\xef\xbb\xbf\xef\xbb\xbfx\xffy".to_vec())).unwrap(),
        "x\u{fffd}y"
    );
    assert_eq!(solution::read("a", Ok("caf\u{e9}".as_bytes().to_vec())).unwrap(), "caf\u{e9}");
    let error = solution::read("a", Err("it is gone".into())).unwrap_err();
    assert_eq!(error.message(), "cannot read a: it is gone");
    assert_eq!(error.exit_code(), 1);
}
