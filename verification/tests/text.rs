use tsgu_rpc::text::{
    chars_of, dec_string, eq_ignore_case, hex_string, padded_hex_string, parse_number, split_once,
    strip_prefix, trim, trim_end,
};

#[test]
fn numbers_format_as_the_standard_library_does() {
    for n in [0u64, 7, 10, 99, 100, 255, 256, 65_535, u32::MAX as u64, u64::MAX] {
        assert_eq!(dec_string(n), format!("{n}"));
        assert_eq!(hex_string(n), format!("{n:#x}"));
    }
    assert_eq!(padded_hex_string(0x2a, 4), format!("{:#06x}", 0x2a));
    assert_eq!(padded_hex_string(0x8007_59DB, 8), format!("{:#010x}", 0x8007_59DBu32 as i32));
}

#[test]
fn numbers_parse_as_the_standard_library_does() {
    for s in ["0", "+0", "007", "65535", "65536", "", "+", "-1", "1 ", " 1", "1a", "\u{661}", "++1"] {
        assert_eq!(
            parse_number(s, u16::MAX as u64).map(|n| n as u16),
            s.parse::<u16>().ok(),
            "{s:?}"
        );
    }
    let max = format!("{}", u64::MAX);
    assert_eq!(parse_number(&max, u64::MAX), Some(u64::MAX));
    assert_eq!(parse_number("18446744073709551616", u64::MAX), None);
}

#[test]
fn every_character_trims_as_in_the_standard_library() {
    let mut n = 0u32;
    while n <= 0x10FFFF {
        if let Some(c) = char::from_u32(n) {
            if n < 0x3100 || n % 0x101 == 0 {
                let s = format!("{c}a{c}{c}");
                assert_eq!(trim(&s), s.trim(), "{n:x}");
                assert_eq!(trim_end(&s), s.trim_end(), "{n:x}");
            }
        }
        n += 1;
    }
    assert_eq!(trim(" \t\r\n "), "");
}

#[test]
fn texts_compare_split_and_strip() {
    assert!(eq_ignore_case("Content-Length", "cONTENT-lENGTH"));
    assert!(!eq_ignore_case("a", "ab"));
    assert!(!eq_ignore_case("\u{c9}", "\u{e9}"));
    assert!(!eq_ignore_case("[", "{"));
    assert_eq!(split_once("a:b:c", ':'), Some(("a", "b:c")));
    assert_eq!(split_once(":", ':'), Some(("", "")));
    assert_eq!(split_once("\u{e9}\u{1F600}:x", ':'), Some(("\u{e9}\u{1F600}", "x")));
    assert_eq!(split_once("abc", ':'), None);
    assert_eq!(strip_prefix("NTLM abc", "NTLM"), Some(" abc"));
    assert_eq!(strip_prefix("NTL", "NTLM"), None);
    assert_eq!(strip_prefix("ntlm", "NTLM"), None);
    assert_eq!(chars_of("h\u{e9}"), vec!['h', '\u{e9}']);
}
