use sightline::text::{
    char_is_white_space, chars_of, contains, join, precedes, split, split_at_char, starts_with,
    strip_leading, trim,
};

#[test]
fn split_at_char_respects_multi_byte_characters() {
    assert_eq!(
        split_at_char("世界", 1),
        Some(("世".to_string(), "界".to_string()))
    );
    assert_eq!(
        split_at_char("世界", 0),
        Some((String::new(), "世界".to_string()))
    );
    assert_eq!(
        split_at_char("世界", 2),
        Some(("世界".to_string(), String::new()))
    );
    assert_eq!(split_at_char("世界", 3), None);
    assert_eq!(split_at_char("", 0), Some((String::new(), String::new())));
    assert_eq!(split_at_char("", 1), None);
    assert_eq!(
        split_at_char("aé😀z", 3),
        Some(("aé😀".to_string(), "z".to_string()))
    );
}

#[test]
fn trim_removes_white_space_at_both_ends() {
    assert_eq!(trim("  a b  "), "a b");
    assert_eq!(trim("\t\n x \r\n"), "x");
    assert_eq!(trim(""), "");
    assert_eq!(trim("   "), "");
    assert_eq!(trim("\u{a0}\u{3000}é\u{2009}"), "é");
    assert_eq!(trim("\u{200b}x"), "\u{200b}x");
    for text in ["  a b  ", "\u{85}q\u{1680}", "\u{2028}\u{2029}", "x\u{205f}\u{202f}"] {
        assert_eq!(trim(text), text.trim());
    }
}

#[test]
fn white_space_is_what_std_calls_white_space() {
    let mut code = 0u32;
    while code < 0x3100 {
        if let Some(c) = char::from_u32(code) {
            assert_eq!(char_is_white_space(c), c.is_whitespace(), "{code:#x}");
        }
        code += 1;
    }
}

#[test]
fn strip_leading_removes_a_run() {
    assert_eq!(strip_leading("##tag", '#'), "tag");
    assert_eq!(strip_leading("tag#", '#'), "tag#");
    assert_eq!(strip_leading("###", '#'), "");
    assert_eq!(strip_leading("", '#'), "");
}

#[test]
fn split_and_join_are_those_of_std() {
    for text in ["a:b:c", "", ":", "a:", ":a", "a::b", "no colon", "世:界"] {
        let expected: Vec<String> = text.split(':').map(str::to_string).collect();
        assert_eq!(split(text, ':'), expected);
        assert_eq!(join(&expected, ':'), text);
    }
    assert_eq!(join(&Vec::new(), ':'), "");
    assert_eq!(join(&vec!["solo".to_string()], ':'), "solo");
}

#[test]
fn prefix_and_infix_tests() {
    assert!(starts_with("project:x", "project"));
    assert!(starts_with("project", ""));
    assert!(!starts_with("pro", "project"));
    assert!(!starts_with("xproject", "project"));
    assert!(contains("sightline", "sight"));
    assert!(contains("sightline", "line"));
    assert!(contains("sightline", "htl"));
    assert!(contains("sightline", ""));
    assert!(contains("", ""));
    assert!(!contains("", "a"));
    assert!(!contains("sightline", "lines"));
    assert!(contains("a世界b", "世界"));
}

#[test]
fn strings_are_ordered_as_std_orders_them() {
    let words = ["", "a", "ab", "b", "B", "#a", "#b", "é", "z", "世", "a:b", "a b"];
    for left in words {
        for right in words {
            assert_eq!(precedes(left, right), left < right, "{left:?} {right:?}");
        }
    }
}

#[test]
fn chars_of_lists_the_characters() {
    assert_eq!(chars_of("aé世"), vec!['a', 'é', '世']);
    assert!(chars_of("").is_empty());
}
