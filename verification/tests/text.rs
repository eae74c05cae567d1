use downfast::text::{parse_u64_str, path_file_name, push_decimal, split_str, trim_str};

#[test]
fn split_keeps_empty_pieces() {
    assert_eq!(split_str("a;;b;", ';'), vec!["a", "", "b", ""]);
    assert_eq!(split_str("", ';'), vec![""]);
    assert_eq!(split_str("abc", ';'), vec!["abc"]);
}

#[test]
fn trim_drops_ascii_white_space() {
    assert_eq!(trim_str(" \t a b \r\n"), "a b");
    assert_eq!(trim_str("   "), "");
    assert_eq!(trim_str("x"), "x");
}

#[test]
fn file_name_of_paths() {
    assert_eq!(path_file_name("http://host/file.iso"), Some("file.iso"));
    assert_eq!(path_file_name("http://host/dir/"), Some("dir"));
    assert_eq!(path_file_name("a/b/."), Some("b"));
    assert_eq!(path_file_name("a//b"), Some("b"));
    assert_eq!(path_file_name("a/.."), None);
    assert_eq!(path_file_name("/"), None);
    assert_eq!(path_file_name(""), None);
    assert_eq!(path_file_name("./."), None);
    assert_eq!(path_file_name("名前/ファイル"), Some("ファイル"));
}

#[test]
fn parse_u64_as_from_str() {
    assert_eq!(parse_u64_str("22766251"), Some(22766251));
    assert_eq!(parse_u64_str("+12"), Some(12));
    assert_eq!(parse_u64_str("007"), Some(7));
    assert_eq!(parse_u64_str("+"), None);
    assert_eq!(parse_u64_str(""), None);
    assert_eq!(parse_u64_str("-1"), None);
    assert_eq!(parse_u64_str("12a"), None);
    assert_eq!(parse_u64_str(" 1"), None);
    assert_eq!(parse_u64_str("18446744073709551615"), Some(u64::MAX));
    assert_eq!(parse_u64_str("18446744073709551616"), None);
    for s in ["0", "+0", "99", "4294967296", "-", "1 ", "1_000"] {
        assert_eq!(parse_u64_str(s), s.parse::<u64>().ok());
    }
}

#[test]
fn decimal_round_trip() {
    for n in [0u64, 9, 10, 123456789, u64::MAX] {
        let mut s = String::from("x");
        push_decimal(&mut s, n);
        assert_eq!(s, format!("x{}", n));
        assert_eq!(parse_u64_str(&s[1..]), Some(n));
    }
}

#[test]
fn file_name_is_a_single_component() {
    for p in ["a/b/c", "x", "/root/dir/", "http://h/q?x=1/y", "a/./b/."] {
        let f = path_file_name(p).unwrap();
        assert!(!f.is_empty() && !f.contains('/') && f != "." && f != "..");
    }
}
