use hydra::encode::{base64, percent_decode};
use hydra::text::{
    chars_of, contains_text, cut_after_last, cut_before, find_text, is_whitespace, parse_number,
    push_decimal, same_str, split_crlf, split_lines, string_of, to_lower, trim, word_at,
};

#[test]
fn base64_rfc() {
    assert_eq!(base64(b"user:pass"), "dXNlcjpwYXNz");
    assert_eq!(base64(b"a"), "YQ==");
    assert_eq!(base64(b"ab"), "YWI=");
}

#[test]
fn base64_covers_its_whole_alphabet() {
    assert_eq!(base64(b""), "");
    assert_eq!(base64(&[0xfb, 0xff, 0xfe]), "+//+");
    assert_eq!(base64(&[0, 0x10, 0x83]), "ABCD");
}

#[test]
fn percent_decoding_takes_escapes_and_leaves_the_rest() {
    assert_eq!(percent_decode("b%20c.bin"), "b c.bin");
    assert_eq!(percent_decode("100%"), "100%");
    assert_eq!(percent_decode("%4"), "%4");
    assert_eq!(percent_decode("%zz%41"), "%zzA");
    assert_eq!(percent_decode("%C3%A9"), "\u{e9}");
    assert_eq!(percent_decode("%ff"), "\u{FFFD}");
    let all: String = (0u8..128).map(|b| format!("%{b:02X}")).collect();
    let plain: String = (0u8..128).map(|b| b as char).collect();
    assert_eq!(percent_decode(&all), plain);
}

#[test]
fn white_space_is_what_the_standard_says() {
    for n in 0..=0x10FFFFu32 {
        if let Some(c) = char::from_u32(n) {
            assert_eq!(is_whitespace(c), c.is_whitespace(), "{n:x}");
        }
    }
}

fn chars(s: &str) -> Vec<char> {
    chars_of(s)
}

#[test]
fn texts_are_cut_and_searched() {
    assert_eq!(string_of(trim(&chars(" \u{2003}a b\t\n"))), "a b");
    assert_eq!(string_of(cut_before(&chars("a;b;c"), ';')), "a");
    assert_eq!(string_of(cut_after_last(&chars("a/b/c"), '/')), "c");
    assert_eq!(string_of(cut_after_last(&chars("abc"), '/')), "abc");
    assert_eq!(find_text(&chars("aXbXc"), &chars("Xb")), Some(1));
    assert_eq!(find_text(&chars("abc"), &chars("")), Some(0));
    assert!(!contains_text(&chars("abc"), &chars("abcd")));
    assert_eq!(string_of(&to_lower(&chars("ÀB1z"))), "Àb1z");
    assert!(same_str("é", "é") && !same_str("a", "b"));
    assert_eq!(word_at(&chars("  one  two"), 1).map(string_of).as_deref(), Some("two"));
    assert_eq!(word_at(&chars("one "), 1), None);
}

#[test]
fn lines_are_split_as_the_standard_does() {
    for s in ["", "a", "a\n", "a\r\nb", "\r\n", "a\r", "a\r\r\n", "\n\n", "x\ny\r\n"] {
        let ours: Vec<String> = split_lines(&chars(s)).iter().map(|l| string_of(l)).collect();
        let std: Vec<String> = s.lines().map(|l| l.to_string()).collect();
        assert_eq!(ours, std, "{s:?}");
        let ours: Vec<String> = split_crlf(&chars(s)).iter().map(|l| string_of(l)).collect();
        let std: Vec<String> = s.split("\r\n").map(|l| l.to_string()).collect();
        assert_eq!(ours, std, "{s:?}");
    }
}

#[test]
fn numbers_are_read_as_the_standard_does() {
    for s in [
        "", "+", "-", "0", "+7", "-0", "007", "18446744073709551615", "18446744073709551616",
        "12a", "ff", "FF", "g", "++1", " 1", "99999999999999999999999",
    ] {
        assert_eq!(parse_number(&chars(s), 10, u64::MAX), s.parse::<u64>().ok(), "{s:?}");
        assert_eq!(
            parse_number(&chars(s), 16, u64::MAX),
            u64::from_str_radix(s, 16).ok(),
            "{s:?}"
        );
        assert_eq!(
            parse_number(&chars(s), 10, 65535).map(|n| n as u16),
            s.parse::<u16>().ok(),
            "{s:?}"
        );
    }
}

#[test]
fn a_decimal_form_reads_back() {
    for n in [0u64, 9, 10, 65535, 1_000_000_007, u64::MAX] {
        let mut s = String::new();
        push_decimal(&mut s, n);
        assert_eq!(s, n.to_string());
        assert_eq!(parse_number(&chars(&s), 10, u64::MAX), Some(n));
    }
}
