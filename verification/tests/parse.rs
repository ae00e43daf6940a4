use snapdown::{parse_block, Block, Syntax};

#[test]
fn reads_a_plain_block() {
    let parsed = parse_block::<Syntax>("intro\n```rust\nfoo\n```\nrest").unwrap();
    let (rest, block): (&str, Block<Syntax>) = parsed.unwrap();
    assert_eq!(rest, "\nrest");
    assert_eq!(block.comments, "intro\n");
    assert_eq!(block.lang, "rust");
    assert_eq!(block.directives, "");
    assert_eq!(block.text, "foo");
    assert!(!block.arguments.draft);
    assert!(!block.arguments.rest.trivia);
    assert!(block.result.is_none());
}

#[test]
fn reads_the_directives() {
    let (rest, block) = parse_block::<Syntax>("```rust --draft --trivia\nold\n```").unwrap().unwrap();
    assert_eq!(rest, "");
    assert_eq!(block.comments, "");
    assert_eq!(block.lang, "rust");
    assert_eq!(block.directives, "--draft --trivia");
    assert_eq!(block.text, "old");
    assert!(block.arguments.draft);
    assert!(block.arguments.rest.trivia);
}

#[test]
fn trims_the_directives() {
    let (_, block) = parse_block::<Syntax>("```rust   --draft  \t\nx\n```").unwrap().unwrap();
    assert_eq!(block.lang, "rust");
    assert_eq!(block.directives, "--draft");
    assert!(block.arguments.draft);
    let (_, block) = parse_block::<Syntax>("```rust --trivia\r\nx\r\n```").unwrap().unwrap();
    assert_eq!(block.directives, "--trivia");
    assert_eq!(block.text, "x\r");
    let (_, block) = parse_block::<Syntax>("```rust \nx\n```").unwrap().unwrap();
    assert_eq!(block.lang, "rust");
    assert_eq!(block.directives, "");
}

#[test]
fn nothing_without_a_fence() {
    assert!(parse_block::<Syntax>("").unwrap().is_none());
    assert!(parse_block::<Syntax>("just text\nand `` more\n").unwrap().is_none());
}

#[test]
fn nothing_without_the_end_of_the_header_line() {
    assert!(parse_block::<Syntax>("```rust").unwrap().is_none());
    assert!(parse_block::<Syntax>("text ```rust --draft").unwrap().is_none());
}

#[test]
fn nothing_without_a_closing_fence() {
    assert!(parse_block::<Syntax>("```rust\nfoo\n").unwrap().is_none());
    assert!(parse_block::<Syntax>("```rust\nfoo\n``").unwrap().is_none());
}

#[test]
fn an_unclosed_block_is_no_error_even_with_unknown_directives() {
    assert!(parse_block::<Syntax>("```rust --bogus\nfoo\n").unwrap().is_none());
}

#[test]
fn unknown_directive_is_an_error() {
    let error = parse_block::<Syntax>("```rust --bogus\nx\n```").unwrap_err();
    assert_eq!(error.token, "--bogus");
}

#[test]
fn strips_one_newline_from_the_body() {
    let (_, block) = parse_block::<Syntax>("```\na\n\n\n```").unwrap().unwrap();
    assert_eq!(block.text, "a\n\n");
    let (_, block) = parse_block::<Syntax>("```\na```").unwrap().unwrap();
    assert_eq!(block.text, "a");
    let (_, block) = parse_block::<Syntax>("```\n\n```").unwrap().unwrap();
    assert_eq!(block.text, "");
    let (_, block) = parse_block::<Syntax>("```\n```").unwrap().unwrap();
    assert_eq!(block.text, "");
    assert_eq!(block.lang, "");
}

#[test]
fn backticks_behind_the_fence_belong_to_the_header() {
    let (rest, block) = parse_block::<Syntax>("x````rust\nfoo\n````").unwrap().unwrap();
    assert_eq!(block.comments, "x");
    assert_eq!(block.lang, "`rust");
    assert_eq!(block.text, "foo");
    assert_eq!(rest, "`");
}

#[test]
fn reads_text_in_any_script() {
    let (rest, block) = parse_block::<Syntax>("süß — 日本\n```языке --trivia\nπ ≈ 3\n```\n…").unwrap().unwrap();
    assert_eq!(block.comments, "süß — 日本\n");
    assert_eq!(block.lang, "языке");
    assert_eq!(block.directives, "--trivia");
    assert_eq!(block.text, "π ≈ 3");
    assert_eq!(rest, "\n…");
    assert!(block.arguments.rest.trivia);
}

#[test]
fn reads_one_block_after_the_other() {
    let content = "one\n```a\n1\n```\ntwo\n```b --draft\n2\n```\n";
    let (rest, first) = parse_block::<Syntax>(content).unwrap().unwrap();
    assert_eq!(first.comments, "one\n");
    assert_eq!(first.lang, "a");
    assert_eq!(first.text, "1");
    let (rest, second) = parse_block::<Syntax>(rest).unwrap().unwrap();
    assert_eq!(second.comments, "\ntwo\n");
    assert_eq!(second.lang, "b");
    assert_eq!(second.text, "2");
    assert!(second.arguments.draft);
    assert_eq!(rest, "\n");
    assert!(parse_block::<Syntax>(rest).unwrap().is_none());
}
