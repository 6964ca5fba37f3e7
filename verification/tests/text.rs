use thermaltaked::text::{
    chars_of, dec_u64, decimal_string, hex_u32, joined, lines_of, split_of, string_of, trimmed,
    two_digit_string, words_of,
};

fn chars(text: &str) -> Vec<char> {
    chars_of(text)
}

#[test]
fn lines_as_str_lines_gives_them() {
    for text in ["", "a", "a\n", "a\r\nb", "a\n\nb\n", "\n", "a\rb\n", "x\r"] {
        let expected: Vec<String> = text.lines().map(str::to_owned).collect();
        assert_eq!(lines_of(text), expected, "{text:?}");
    }
}

#[test]
fn words_as_split_whitespace_gives_them() {
    for text in ["", "  a  b ", "a\u{a0}b\u{3000}c", "\t\nx\u{2028}y", "é è"] {
        let expected: Vec<String> = text.split_whitespace().map(str::to_owned).collect();
        assert_eq!(words_of(text), expected, "{text:?}");
    }
}

#[test]
fn trimming_as_str_trim_does() {
    for text in ["", "  a b \n", "\u{85}x\u{2009}", "\u{180e}y"] {
        assert_eq!(trimmed(text), text.trim(), "{text:?}");
    }
}

#[test]
fn pieces_as_split_gives_them() {
    for text in ["", ",", "a,,b", "744C, C8, AMD Radeon"] {
        let expected: Vec<String> = text.split(',').map(str::to_owned).collect();
        assert_eq!(split_of(text, ','), expected, "{text:?}");
    }
}

#[test]
fn numbers_as_std_reads_them() {
    for text in ["0", "+12", "-1", "", "+", "18446744073709551615", "18446744073709551616", "1a"] {
        assert_eq!(dec_u64(&chars(text)), text.parse::<u64>().ok(), "{text:?}");
    }
    for text in ["0", "+fF", "-1", "", "+", "ffffffff", "100000000", "0x1", "g"] {
        assert_eq!(hex_u32(&chars(text)), u32::from_str_radix(text, 16).ok(), "{text:?}");
    }
}

#[test]
fn digits_as_format_writes_them() {
    for n in [0u64, 7, 10, 99, 100, 12345, u64::MAX] {
        assert_eq!(decimal_string(n), n.to_string());
        assert_eq!(two_digit_string(n), format!("{n:02}"));
    }
}

#[test]
fn strings_are_rebuilt_and_joined() {
    assert_eq!(string_of(&['a', 'é', '…']), "aé…");
    let parts = vec!["a".to_owned(), "b".to_owned(), "c".to_owned()];
    assert_eq!(joined(&parts, ", "), "a, b, c");
    assert_eq!(joined(&Vec::new(), ", "), "");
}
