use pack::text::{
    char_is_whitespace, chars_of, split_bounds, text_ends_with, text_of, text_without, trim,
    without_first,
};

fn pieces(s: &str, sep: &str) -> Vec<String> {
    let v = chars_of(s);
    let p = chars_of(sep);
    split_bounds(&v, 0, v.len(), &p).into_iter().map(|(a, b)| text_of(&v, a, b)).collect()
}

fn std_pieces(s: &str, sep: &str) -> Vec<String> {
    s.split(sep).map(|x| x.to_string()).collect()
}

#[test]
fn white_space_is_what_the_standard_library_calls_so() {
    let mut code: u32 = 0;
    while code <= 0x10FFFF {
        if let Some(c) = char::from_u32(code) {
            assert_eq!(char_is_whitespace(c), c.is_whitespace(), "U+{:04X}", code);
        }
        code += 1;
    }
}

#[test]
fn trim_takes_white_space_from_both_ends() {
    for s in ["", " ", "foo", "  foo", "foo \n", "\t foo bar \r\n", "\u{a0}x\u{3000}", " a  b "] {
        assert_eq!(trim(s), s.trim());
    }
}

#[test]
fn split_on_one_character() {
    for s in ["", "a", "a|b", "|", "a||b", "|a|", "abc|def|ghi", "||"] {
        assert_eq!(pieces(s, "|"), std_pieces(s, "|"), "{:?}", s);
    }
}

#[test]
fn split_on_two_characters() {
    for s in ["", "a, b", "a,b", ", ", "a, , b", ", a, ", "a,  b", "x, y, z", ",, ", ", , ,"] {
        assert_eq!(pieces(s, ", "), std_pieces(s, ", "), "{:?}", s);
    }
}

#[test]
fn split_does_not_count_overlapping_separators() {
    assert_eq!(pieces("aaa", "aa"), vec!["".to_string(), "a".to_string()]);
    assert_eq!(pieces("aaaa", "aa"), std_pieces("aaaa", "aa"));
}

#[test]
fn characters_are_taken_out() {
    let v = chars_of(">= 1.2)");
    assert_eq!(text_without(&v, 0, v.len(), ')'), ">= 1.2");
    let w = chars_of("a)b))c");
    assert_eq!(text_without(&w, 0, w.len(), ')'), "abc");
    assert_eq!(text_without(&w, 1, 3, ')'), "b");
}

#[test]
fn first_character_is_dropped() {
    assert_eq!(without_first(&"./usr/bin/foo".to_string()), "/usr/bin/foo");
    assert_eq!(without_first(&"x".to_string()), "");
    assert_eq!(without_first(&"".to_string()), "");
    assert_eq!(without_first(&"\u{e9}t\u{e9}".to_string()), "t\u{e9}");
}

#[test]
fn endings_are_recognized() {
    assert!(text_ends_with("foo.deb", ".deb"));
    assert!(text_ends_with(".deb", ".deb"));
    assert!(!text_ends_with("deb", ".deb"));
    assert!(!text_ends_with("foo.deb ", ".deb"));
    assert!(text_ends_with("anything", ""));
}
