use snapdown::{parse_block, Arguments, Block, Syntax};

fn block<'a>(directives: &'a str, draft: bool, text: &'a str, result: Option<&str>) -> Block<'a, Syntax> {
    Block {
        comments: "before\n",
        lang: "rust",
        directives,
        arguments: Arguments { draft, rest: Syntax { trivia: false } },
        text,
        result: result.map(String::from),
    }
}

#[test]
fn a_draft_is_written_with_the_result() {
    let mut b = block("--draft", true, "old", Some("new"));
    assert_eq!(b.render(), "before\n```rust --draft\nnew\n```");
    let mut b = block("--draft", true, "", Some("new"));
    assert_eq!(b.render(), "before\n```rust --draft\nnew\n```");
}

#[test]
fn an_empty_block_is_written_with_the_result() {
    let mut b = block("", false, "", Some("new"));
    assert_eq!(b.render(), "before\n```rust\nnew\n```");
}

#[test]
fn a_block_with_text_keeps_it() {
    let mut b = block("", false, "old", Some("new"));
    assert_eq!(b.render(), "before\n```rust\nold\n```");
    let mut b = block("", false, "old", None);
    assert_eq!(b.render(), "before\n```rust\nold\n```");
}

#[test]
fn without_a_result_the_text_is_written() {
    let mut b = block("--draft", true, "old", None);
    assert_eq!(b.render(), "before\n```rust --draft\nold\n```");
    let mut b = block("", false, "", None);
    assert_eq!(b.render(), "before\n```rust\n\n```");
}

#[test]
fn directives_are_written_as_they_were_read() {
    let (_, mut b) = parse_block::<Syntax>("```rust --draft --trivia\nx\n```").unwrap().unwrap();
    assert_eq!(b.render(), "```rust --draft --trivia\nx\n```");
    let (_, mut b) = parse_block::<Syntax>("```rust --trivia   --draft --trivia\nx\n```").unwrap().unwrap();
    assert_eq!(b.render(), "```rust --trivia   --draft --trivia\nx\n```");
    let mut b = block("--trivia", true, "x", None);
    assert_eq!(b.render(), "before\n```rust --trivia\nx\n```");
}

#[test]
fn rendering_takes_the_result() {
    let mut b = block("", false, "", Some("new"));
    assert_eq!(b.render(), "before\n```rust\nnew\n```");
    assert!(b.result.is_none());
    assert_eq!(b.render(), "before\n```rust\n\n```");
    assert_eq!(b.text, "");
    assert_eq!(b.comments, "before\n");
}
