use wsl2hosts::text::{
    chars_of, contains_char, contains_str, decode_output, lines, parse_u8, remove_char,
    split_fields,
};

#[test]
fn split_fields_drops_empty_pieces() {
    assert_eq!(split_fields("  127.0.0.1   ubuntu  # x ", ' '), vec!["127.0.0.1", "ubuntu", "#", "x"]);
    assert_eq!(split_fields("", ' '), Vec::<String>::new());
    assert_eq!(split_fields("   ", ' '), Vec::<String>::new());
    assert_eq!(split_fields("a", ' '), vec!["a"]);
}

#[test]
fn lines_follow_str_lines() {
    let samples = ["", "\n", "a", "a\n", "a\r\nb", "foo\r\nbar\n\nbaz\r", "x\n\ny\n", "\r\n\r\n"];
    for s in samples {
        let expected: Vec<String> = s.lines().map(|l| l.to_string()).collect();
        assert_eq!(lines(s), expected, "input {:?}", s);
    }
}

#[test]
fn contains_checks() {
    assert!(contains_char("a b", ' '));
    assert!(!contains_char("ab", ' '));
    assert!(contains_str("  Ubuntu  Running  2", "Running"));
    assert!(!contains_str("  Ubuntu  Stopped  2", "Running"));
    assert!(contains_str("abc", ""));
    assert!(!contains_str("Run", "Running"));
    assert!(contains_str("Running", "Running"));
}

#[test]
fn parse_u8_like_std() {
    let samples = ["0", "2", "+7", "255", "256", "", "+", "-1", "02", "1a", " 1", "99999999999", "2\r"];
    for s in samples {
        assert_eq!(parse_u8(s), s.parse::<u8>().ok(), "input {:?}", s);
    }
}

#[test]
fn remove_char_takes_out_every_occurrence() {
    assert_eq!(remove_char("c:/users/a:b", ':'), "c/users/ab");
    assert_eq!(remove_char("", ':'), "");
    assert_eq!(remove_char(":::", ':'), "");
}

#[test]
fn decode_output_reads_utf16_ascii() {
    let utf16: Vec<u8> = "Ubuntu\r\n".encode_utf16().flat_map(|u| u.to_le_bytes()).collect();
    assert_eq!(decode_output(&utf16), "Ubuntu\r\n");
    assert_eq!(decode_output(b"172.20.1.2\n"), "172.20.1.2\n");
}

#[test]
fn decode_output_replaces_invalid_bytes() {
    assert_eq!(decode_output(&[0x61, 0xff, 0x00, 0x62]), "a\u{fffd}b");
}

#[test]
fn chars_of_gives_every_char() {
    assert_eq!(chars_of("aé\u{1F600}"), vec!['a', 'é', '\u{1F600}']);
}

#[test]
fn case_insensitive_equality_like_std() {
    let pairs = [("Ubuntu", "ubuntu"), ("UBUNTU", "ubuntU"), ("a", "b"), ("ab", "a"), ("É", "é"), ("", ""), ("[", "{")];
    for (a, b) in pairs {
        assert_eq!(wsl2hosts::text::eq_ignore_ascii_case(a, b), a.eq_ignore_ascii_case(b), "{:?} {:?}", a, b);
    }
}

#[test]
fn lowercase_like_std() {
    for s in ["", "Ubuntu-22.04", "C:/Users/ME/AppData", "ÄÖÜ abc XYZ", "@[`{"] {
        assert_eq!(wsl2hosts::text::to_ascii_lowercase(s), s.to_ascii_lowercase(), "{:?}", s);
    }
}
