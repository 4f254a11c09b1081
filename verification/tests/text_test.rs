use sat_rs::text::{
    chars_of, copy_range, is_white_space, parse_integer, split_lines, split_tokens,
};

fn chars(text: &str) -> Vec<char> {
    text.chars().collect()
}

fn strings(items: Vec<Vec<char>>) -> Vec<String> {
    items.into_iter().map(|item| item.into_iter().collect()).collect()
}

fn lines(text: &str) -> Vec<String> {
    strings(split_lines(&chars(text)))
}

fn tokens(text: &str) -> Vec<String> {
    strings(split_tokens(&chars(text)))
}

fn integer(text: &str) -> Option<i32> {
    parse_integer(&chars(text))
}

#[test]
fn chars_of_text() {
    assert_eq!(chars_of("p cnf"), vec!['p', ' ', 'c', 'n', 'f']);
    assert_eq!(chars_of(""), Vec::<char>::new());
    assert_eq!(chars_of("a\u{3000}\u{e9}"), vec!['a', '\u{3000}', '\u{e9}']);
}

#[test]
fn copy_range_of_text() {
    let text = chars("abcdef");
    assert_eq!(copy_range(&text, 1, 4), vec!['b', 'c', 'd']);
    assert_eq!(copy_range(&text, 6, 6), Vec::<char>::new());
    assert_eq!(copy_range(&text, 0, 6), text);
}

#[test]
fn white_space_is_that_of_the_standard_library() {
    for code in 0..0x11_0000u32 {
        if let Some(c) = char::from_u32(code) {
            assert_eq!(is_white_space(c), c.is_whitespace(), "U+{:04X}", code);
        }
    }
}

#[test]
fn lines_as_the_standard_library_splits_them() {
    let texts = [
        "",
        "\n",
        "a",
        "a\n",
        "a\nb",
        "a\nb\n",
        "a\n\nb",
        "\n\na\n\n",
        "a\r\nb\r\n",
        "a\rb\nc",
        "a\r",
        "a\r\r\nb",
        "\r\n",
        "\r",
        "p cnf 3 2\n1 -3 0\n2 3 -1 0\n",
    ];
    for text in texts {
        let expected: Vec<String> = text.lines().map(|line| line.to_string()).collect();
        assert_eq!(lines(text), expected, "{:?}", text);
    }
}

#[test]
fn lines_exact() {
    assert_eq!(lines("a\r\nb\n\nc"), vec!["a", "b", "", "c"]);
    assert_eq!(lines("x\r"), vec!["x\r"]);
    assert_eq!(lines(""), Vec::<String>::new());
}

#[test]
fn tokens_as_the_standard_library_splits_them() {
    let texts = [
        "",
        " ",
        "a",
        " a ",
        "1 -3 0",
        "  12\t-7   0  ",
        "p cnf 3 2",
        "a\u{a0}b\u{2003}c",
        "\u{85}x\u{3000}",
        "a\rb",
        "tab\tseparated\x0bvertical\x0cfeed",
    ];
    for text in texts {
        let expected: Vec<String> = text.split_whitespace().map(|t| t.to_string()).collect();
        assert_eq!(tokens(text), expected, "{:?}", text);
    }
}

#[test]
fn tokens_exact() {
    assert_eq!(tokens("  2 3\t-1  0 "), vec!["2", "3", "-1", "0"]);
    assert_eq!(tokens(" \t "), Vec::<String>::new());
}

#[test]
fn integers_as_the_standard_library_reads_them() {
    let texts = [
        "0", "1", "-1", "+1", "-0", "+0", "007", "-007", "2147483647", "2147483648",
        "-2147483648", "-2147483649", "+2147483647", "+2147483648", "99999999999999999999999",
        "-99999999999999999999999", "000000000000000000000000000001", "", "-", "+", "--1", "+-1",
        "1-", "1a", "a1", "1 ", " 1", "1.0", "0x10", "١", "12345678901",
        "214748364a", "99999999999999999999999x",
    ];
    for text in texts {
        assert_eq!(integer(text), text.parse::<i32>().ok(), "{:?}", text);
    }
}

#[test]
fn integers_exact() {
    assert_eq!(integer("42"), Some(42));
    assert_eq!(integer("-17"), Some(-17));
    assert_eq!(integer("+5"), Some(5));
    assert_eq!(integer("-2147483648"), Some(i32::MIN));
    assert_eq!(integer("2147483647"), Some(i32::MAX));
    assert_eq!(integer("2147483648"), None);
    assert_eq!(integer("x"), None);
}
