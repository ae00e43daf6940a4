use snapdown::text::{is_whitespace, split_once, str_eq, strip_newline, trim};

#[test]
fn split_once_takes_the_first_occurrence() {
    assert_eq!(split_once("a```b```c", "```"), Some(("a", "b```c")));
    assert_eq!(split_once("```", "```"), Some(("", "")));
    assert_eq!(split_once("x````y", "```"), Some(("x", "`y")));
    assert_eq!(split_once("key=value=more", "="), Some(("key", "value=more")));
}

#[test]
fn split_once_finds_nothing() {
    assert_eq!(split_once("", "```"), None);
    assert_eq!(split_once("``", "```"), None);
    assert_eq!(split_once("`` `", "```"), None);
    assert_eq!(split_once("no fence here", "\n"), None);
}

#[test]
fn split_once_with_an_empty_pattern() {
    assert_eq!(split_once("abc", ""), Some(("", "abc")));
    assert_eq!(split_once("", ""), Some(("", "")));
}

#[test]
fn split_once_agrees_with_std() {
    let texts = ["", "a", "a b", " a", "a ", "é ü", "日本語 テキスト", "a\nb\nc", "``` ```", "αβγ→δ→ε"];
    let patterns = [" ", "\n", "```", "→", "é", "語 テ", "", "ab"];
    for text in texts {
        for pattern in patterns {
            assert_eq!(split_once(text, pattern), text.split_once(pattern), "{:?} {:?}", text, pattern);
        }
    }
}

#[test]
fn split_once_keeps_characters_of_several_bytes_whole() {
    assert_eq!(split_once("héllo wörld", " "), Some(("héllo", "wörld")));
    assert_eq!(split_once("日本```語", "```"), Some(("日本", "語")));
}

#[test]
fn trim_removes_whitespace_at_both_ends() {
    assert_eq!(trim("  --draft \t"), "--draft");
    assert_eq!(trim("--draft\r"), "--draft");
    assert_eq!(trim("\u{a0}a b\u{3000}"), "a b");
    assert_eq!(trim("a"), "a");
    assert_eq!(trim(""), "");
    assert_eq!(trim(" \n\t "), "");
    assert_eq!(trim("  é  "), "é");
}

#[test]
fn trim_agrees_with_std() {
    let texts = ["", " ", "a", " a", "a ", " a b ", "\u{2003}x\u{2003}", "\u{85}\u{1680}y\u{2028}\u{2029}", "\u{200b}z\u{200b}", "\r\n\tq\u{b}\u{c}"];
    for text in texts {
        assert_eq!(trim(text), text.trim(), "{:?}", text);
    }
}

#[test]
fn whitespace_is_what_std_calls_whitespace() {
    let mut code: u32 = 0;
    while code <= 0x10ffff {
        if let Some(c) = char::from_u32(code) {
            assert_eq!(is_whitespace(c), c.is_whitespace(), "U+{:04X}", code);
        }
        code += 1;
    }
}

#[test]
fn strip_newline_removes_one_newline() {
    assert_eq!(strip_newline("foo\n"), "foo");
    assert_eq!(strip_newline("foo\n\n"), "foo\n");
    assert_eq!(strip_newline("foo"), "foo");
    assert_eq!(strip_newline("\n"), "");
    assert_eq!(strip_newline(""), "");
    assert_eq!(strip_newline("foo\r\n"), "foo\r");
    assert_eq!(strip_newline("é\n"), "é");
}

#[test]
fn str_eq_compares_texts() {
    assert!(str_eq("", ""));
    assert!(str_eq("--draft", "--draft"));
    assert!(!str_eq("--draft", "--drafts"));
    assert!(!str_eq("--draft", "--drift"));
    assert!(str_eq("日本語", "日本語"));
    assert!(!str_eq("a", ""));
}
