use snmalloc_profile::order::{locate, sort};
use snmalloc_profile::text::{
    chars_of, lower, parse_number, push_decimal, push_hex_address, push_utf8, text_of, trim, white,
};

#[test]
fn white_space_is_that_of_the_standard_library() {
    for n in 0..0x11_0000u32 {
        if let Some(c) = char::from_u32(n) {
            assert_eq!(white(c), c.is_whitespace(), "{n:#x}");
        }
    }
}

#[test]
fn trimming_and_lowering() {
    for s in ["", "  ", "a", " a b ", "\u{3000}A\u{130}z\n", "no space"] {
        let chars = chars_of(s);
        assert_eq!(text_of(&trim(&chars)), s.trim());
        assert_eq!(text_of(&lower(&chars)), s.to_ascii_lowercase());
    }
}

#[test]
fn numerals_are_those_of_the_standard_formatter() {
    for n in [0u128, 9, 10, 99, 100, 524_288, u64::MAX as u128, u128::MAX] {
        let mut out = chars_of("n=");
        push_decimal(&mut out, n);
        assert_eq!(text_of(&out), format!("n={n}"));
    }
    for n in [0u64, 1, 0x1234_5678_9abc_def0, u64::MAX] {
        let mut out = Vec::new();
        push_hex_address(&mut out, n);
        assert_eq!(text_of(&out), format!("0x{n:016x}"));
    }
}

#[test]
fn numbers_are_read_in_both_bases() {
    for s in ["0", "ff", "FF", "+1f", "g", "", "+", "-1", "ffffffffffffffff", "10000000000000000", "12"] {
        assert_eq!(parse_number(&chars_of(s), 16), usize::from_str_radix(s, 16).ok(), "{s}");
        assert_eq!(parse_number(&chars_of(s), 10), s.parse::<usize>().ok(), "{s}");
    }
}

#[test]
fn text_is_written_as_utf8() {
    let mut out: Vec<u8> = vec![0];
    push_utf8(&mut out, &chars_of("a\u{e9}\u{20ac}\u{1f600}"));
    assert_eq!(&out[1..], "a\u{e9}\u{20ac}\u{1f600}".as_bytes());
}

#[test]
fn sorting_orders_stacks_and_text() {
    let stacks: Vec<Vec<usize>> = vec![vec![2], vec![], vec![1, 9], vec![1], vec![1, 2, 3]];
    let mut want = stacks.clone();
    want.sort();
    let arranged = sort(stacks);
    assert_eq!(arranged, want);
    assert_eq!(locate(&arranged, &vec![1, 9]), (true, 3));
    assert_eq!(locate(&arranged, &vec![1, 3]), (false, 3));
    assert_eq!(locate(&arranged, &vec![7]), (false, 5));

    let words: Vec<Vec<char>> = ["b", "a", "\u{e9}", "ab", "\u{1f600}", "\u{ffff}"].iter().map(|s| chars_of(s)).collect();
    let texts: Vec<String> = sort(words).iter().map(text_of).collect();
    assert_eq!(texts, vec!["a", "ab", "b", "\u{e9}", "\u{ffff}", "\u{1f600}"]);
}

#[test]
fn numerals_read_back() {
    for n in [0usize, 7, 10, 4096, 524_288, usize::MAX] {
        let mut decimal = Vec::new();
        push_decimal(&mut decimal, n as u128);
        assert_eq!(parse_number(&decimal, 10), Some(n));
        let mut hex = Vec::new();
        push_hex_address(&mut hex, n as u64);
        assert_eq!(hex.len(), 18);
        assert_eq!(parse_number(&hex[2..].to_vec(), 16), Some(n));
    }
}
