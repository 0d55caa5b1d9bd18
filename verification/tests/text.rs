use quicktools::storage::{
    app_support_dir, workflow_file_path, workflow_temp_path, APP_SUPPORT_SUBDIR, WORKFLOW_FILE,
};
use quicktools::text::{
    chars_of, eq_ignore_ascii_case, hex_digit, is_blank, join_path, parse_u64, push_decimal,
    push_signed_decimal, text_of, to_ascii_lower, trim,
};

#[test]
fn trim_removes_white_space_at_both_ends() {
    assert_eq!(trim("  a b \t\n"), "a b");
    assert_eq!(trim(""), "");
    assert_eq!(trim(" \u{a0}\u{3000}\u{2003}"), "");
    assert_eq!(trim("\u{feff}x"), "\u{feff}x");
    assert_eq!(trim("x"), "x");
    for sample in ["", " ", "a", " a", "a ", "\u{85}a\u{2028}", "\u{200b}a", "a  b", "\r\n\u{b}\u{c}z"] {
        assert_eq!(trim(sample), sample.trim());
    }
}

#[test]
fn blank_texts() {
    assert!(is_blank(""));
    assert!(is_blank(" \n\t "));
    assert!(!is_blank(" [] "));
}

#[test]
fn parse_u64_cases() {
    assert_eq!(parse_u64("0"), Some(0));
    assert_eq!(parse_u64("250"), Some(250));
    assert_eq!(parse_u64("+250"), Some(250));
    assert_eq!(parse_u64("000250"), Some(250));
    assert_eq!(parse_u64("18446744073709551615"), Some(u64::MAX));
    assert_eq!(parse_u64("18446744073709551616"), None);
    assert_eq!(parse_u64("99999999999999999999999"), None);
    assert_eq!(parse_u64("184467440737095516150"), None);
    for bad in ["", "+", "-", "-1", "++1", "+-1", " 1", "1 ", "1_000", "1.0", "1e3", "\u{661}", "0x10"] {
        assert_eq!(parse_u64(bad), None);
    }
    for sample in ["7", "+0", "42", "+18446744073709551615", "18446744073709551616x", "١٢"] {
        assert_eq!(parse_u64(sample), sample.parse::<u64>().ok());
    }
}

#[test]
fn decimal_digits() {
    let show = |n: u64| {
        let mut s = String::from(">");
        push_decimal(&mut s, n);
        s
    };
    assert_eq!(show(0), ">0");
    assert_eq!(show(9), ">9");
    assert_eq!(show(10), ">10");
    assert_eq!(show(1234567890), ">1234567890");
    assert_eq!(show(u64::MAX), ">18446744073709551615");
    let signed = |n: i32| {
        let mut s = String::new();
        push_signed_decimal(&mut s, n);
        s
    };
    assert_eq!(signed(0), "0");
    assert_eq!(signed(-1), "-1");
    assert_eq!(signed(255), "255");
    assert_eq!(signed(i32::MIN), "-2147483648");
}

#[test]
fn characters_of_a_text() {
    assert_eq!(chars_of("a\u{e9}\u{1F600}"), vec!['a', '\u{e9}', '\u{1F600}']);
    assert_eq!(chars_of(""), Vec::<char>::new());
    let chars = vec!['a', 'b', 'c', 'd'];
    assert_eq!(text_of(&chars, 1, 3), "bc");
    assert_eq!(text_of(&chars, 2, 2), "");
    assert_eq!(text_of(&chars, 0, 4), "abcd");
}

#[test]
fn hex_digits_are_upper_case() {
    let all: String = (0u8..16).map(hex_digit).collect();
    assert_eq!(all, "0123456789ABCDEF");
}

#[test]
fn comparing_without_ascii_case() {
    assert!(eq_ignore_ascii_case("WeB", "web"));
    assert!(eq_ignore_ascii_case("", ""));
    assert!(!eq_ignore_ascii_case("web", "webs"));
    assert!(!eq_ignore_ascii_case("w\u{c9}b", "w\u{e9}b"));
    assert!(!eq_ignore_ascii_case("@", "`"));
    assert!(!eq_ignore_ascii_case("[", "{"));
    assert_eq!(to_ascii_lower('A'), 'a');
    assert_eq!(to_ascii_lower('Z'), 'z');
    assert_eq!(to_ascii_lower('a'), 'a');
    assert_eq!(to_ascii_lower('@'), '@');
    assert_eq!(to_ascii_lower('['), '[');
    for (a, b) in [("Hello", "hELLO"), ("a", "b"), ("K", "\u{212a}"), ("x1", "X1")] {
        assert_eq!(eq_ignore_ascii_case(a, b), a.eq_ignore_ascii_case(b));
    }
}

#[test]
fn joining_paths() {
    assert_eq!(join_path("/Users/me", "code"), "/Users/me/code");
    assert_eq!(join_path("/Users/me/", "code"), "/Users/me/code");
    assert_eq!(join_path("/Users/me", "/etc"), "/etc");
    assert_eq!(join_path("", "code"), "code");
    assert_eq!(join_path("/Users/me", ""), "/Users/me/");
    assert_eq!(join_path("", ""), "");
}

#[test]
fn joining_paths_agrees_with_std() {
    for base in ["", "/", "/a", "/a/", "a", "a/b", "a//", "~"] {
        for part in ["", "/", "x", "x/", "/x", "x/y z", "../x", "./x", "//x"] {
            let joined = std::path::Path::new(base).join(part);
            assert_eq!(join_path(base, part), joined.to_str().unwrap());
        }
    }
}

#[test]
fn workflow_file_lies_below_the_home_directory() {
    assert_eq!(
        workflow_file_path(Some("/Users/me")),
        Ok("/Users/me/Library/Application Support/QuickTools/workflows.json".to_string())
    );
    assert_eq!(
        workflow_file_path(None),
        Err("HOME environment variable is not set".to_string())
    );
    assert_eq!(
        app_support_dir(Some("/Users/me/")),
        Ok("/Users/me/Library/Application Support/QuickTools".to_string())
    );
    assert_eq!(app_support_dir(None), Err("HOME environment variable is not set".to_string()));
    assert_eq!(
        workflow_temp_path(Some("/Users/me")),
        Ok("/Users/me/Library/Application Support/QuickTools/workflows.tmp.json".to_string())
    );
    assert_eq!(
        workflow_temp_path(None),
        Err("HOME environment variable is not set".to_string())
    );
    let with_std = std::path::Path::new("/Users/me").join(APP_SUPPORT_SUBDIR).join(WORKFLOW_FILE);
    assert_eq!(workflow_file_path(Some("/Users/me")).unwrap(), with_std.to_str().unwrap());
}
