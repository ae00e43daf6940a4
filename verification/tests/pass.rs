use snapdown::{
    compare, needs_rewrite, parse_blocks, reconcile, rewrite, run_test, Block, Outcome, Syntax,
};

fn echo(answer: &'static str) -> impl Fn(&mut Vec<Block<'_, Syntax>>) {
    move |blocks| {
        for block in blocks.iter_mut() {
            block.result = Some(String::from(answer));
        }
    }
}

fn upper() -> impl Fn(&mut Vec<Block<'_, Syntax>>) {
    |blocks| {
        let mut input = String::new();
        for block in blocks.iter_mut() {
            if block.lang == "in" {
                input = block.text.to_uppercase();
            } else {
                block.result = Some(input.clone());
            }
        }
    }
}

fn updated(outcome: Outcome) -> String {
    match outcome {
        Outcome::Updated { content } => content,
        other => panic!("{:?}", other),
    }
}

#[test]
fn equal_result_passes() {
    let outcome = run_test::<Syntax, _>("```rust\nfoo\n```", false, echo("foo")).unwrap();
    assert!(matches!(outcome, Outcome::Passed));
}

#[test]
fn draft_is_rewritten() {
    let outcome = run_test::<Syntax, _>("```rust --draft\nold\n```", false, echo("new")).unwrap();
    assert_eq!(updated(outcome), "```rust --draft\nnew\n```\n");
}

#[test]
fn unknown_directive_fails() {
    let error = run_test::<Syntax, _>("```rust --bogus\nx\n```", false, echo("x")).unwrap_err();
    assert_eq!(error.token, "--bogus");
    assert!(error.message().contains("--bogus"));
}

#[test]
fn unknown_directive_in_a_later_block_fails_the_pass() {
    let content = "```a\n1\n```\n```b --nope\n2\n```\n";
    let error = run_test::<Syntax, _>(content, true, echo("1")).unwrap_err();
    assert_eq!(error.token, "--nope");
    assert_eq!(parse_blocks::<Syntax>(content, false).unwrap_err().token, "--nope");
}

#[test]
fn different_result_fails_with_a_diff() {
    let outcome = run_test::<Syntax, _>("```rust\nfoo\n```", false, echo("bar")).unwrap();
    match outcome {
        Outcome::Failed { mismatches } => {
            assert_eq!(mismatches.len(), 1);
            assert_eq!(mismatches[0].index, 0);
            assert_eq!(mismatches[0].expected, "foo");
            assert_eq!(mismatches[0].actual, "bar");
            assert!(mismatches[0].diff.contains("foo"));
            assert!(mismatches[0].diff.contains("bar"));
            assert_ne!(mismatches[0].diff, "foo");
            assert_ne!(mismatches[0].diff, "bar");
        }
        other => panic!("{:?}", other),
    }
}

#[test]
fn every_mismatch_is_listed() {
    let content = "```a\nx\n```\n```b\ny\n```\n```c\nz\n```\n```d\nw\n```\n";
    let outcome = run_test::<Syntax, _>(content, false, echo("y")).unwrap();
    match outcome {
        Outcome::Failed { mismatches } => {
            assert_eq!(mismatches.len(), 3);
            assert_eq!(mismatches[0].index, 0);
            assert_eq!(mismatches[0].expected, "x");
            assert_eq!(mismatches[1].index, 2);
            assert_eq!(mismatches[1].expected, "z");
            assert_eq!(mismatches[2].index, 3);
            assert_eq!(mismatches[2].expected, "w");
            assert_eq!(mismatches[2].actual, "y");
        }
        other => panic!("{:?}", other),
    }
}

#[test]
fn nothing_computed_passes() {
    let outcome = run_test::<Syntax, _>("```rust\nfoo\n```", false, |_: &mut Vec<Block<'_, Syntax>>| {}).unwrap();
    assert!(matches!(outcome, Outcome::Passed));
    let outcome = run_test::<Syntax, _>("no block at all", false, echo("x")).unwrap();
    assert!(matches!(outcome, Outcome::Passed));
}

#[test]
fn an_empty_block_is_filled() {
    let content = "input:\n```in\nabc\n```\noutput:\n```out\n```\n";
    let outcome = run_test::<Syntax, _>(content, false, upper()).unwrap();
    assert_eq!(updated(outcome), "input:\n```in\nabc\n```\noutput:\n```out\nABC\n```\n");
}

#[test]
fn an_empty_block_without_a_result_stays_empty() {
    let outcome = run_test::<Syntax, _>("```rust\n```", false, |_: &mut Vec<Block<'_, Syntax>>| {}).unwrap();
    assert_eq!(updated(outcome), "```rust\n\n```\n");
}

#[test]
fn a_rewrite_does_not_compare() {
    let content = "```a\nkeep\n```\n```b --draft\nold\n```\n";
    let outcome = run_test::<Syntax, _>(content, false, echo("new")).unwrap();
    assert_eq!(updated(outcome), "```a\nkeep\n```\n```b --draft\nnew\n```\n");
}

#[test]
fn refresh_makes_every_block_a_draft() {
    let content = "```a\none\n```\n```b\ntwo\n```";
    let blocks = parse_blocks::<Syntax>(content, true).unwrap();
    assert_eq!(blocks.len(), 2);
    assert!(blocks[0].arguments.draft && blocks[1].arguments.draft);
    let blocks = parse_blocks::<Syntax>(content, false).unwrap();
    assert!(!blocks[0].arguments.draft && !blocks[1].arguments.draft);
    let outcome = run_test::<Syntax, _>(content, true, echo("new")).unwrap();
    assert_eq!(updated(outcome), "```a\nnew\n```\n```b\nnew\n```\n");
}

#[test]
fn blocks_come_in_the_order_of_the_file() {
    let content = "0\n```a\n1\n```\n2\n```b --trivia\n3\n```\n4\n```c --draft\n5\n```\ntail";
    let blocks = parse_blocks::<Syntax>(content, false).unwrap();
    assert_eq!(blocks.len(), 3);
    assert_eq!(blocks[0].comments, "0\n");
    assert_eq!(blocks[0].lang, "a");
    assert_eq!(blocks[0].text, "1");
    assert_eq!(blocks[1].comments, "\n2\n");
    assert_eq!(blocks[1].lang, "b");
    assert!(blocks[1].arguments.rest.trivia);
    assert_eq!(blocks[2].comments, "\n4\n");
    assert_eq!(blocks[2].text, "5");
    assert!(blocks[2].arguments.draft);
}

#[test]
fn reading_stops_at_a_fence_that_is_not_closed() {
    let content = "```a\n1\n```\n```b\n2\n";
    let blocks = parse_blocks::<Syntax>(content, false).unwrap();
    assert_eq!(blocks.len(), 1);
    assert_eq!(blocks[0].text, "1");
    assert_eq!(parse_blocks::<Syntax>("``` never closed", false).unwrap().len(), 0);
}

#[test]
fn rewrite_is_needed_for_a_draft_or_an_empty_text() {
    let plain = parse_blocks::<Syntax>("```a\n1\n```\n```b\n2\n```\n", false).unwrap();
    assert!(!needs_rewrite(&plain));
    let draft = parse_blocks::<Syntax>("```a\n1\n```\n```b --draft\n2\n```\n", false).unwrap();
    assert!(needs_rewrite(&draft));
    let empty = parse_blocks::<Syntax>("```a\n```\n```b\n2\n```\n", false).unwrap();
    assert!(needs_rewrite(&empty));
    let forced = parse_blocks::<Syntax>("```a\n1\n```\n", true).unwrap();
    assert!(needs_rewrite(&forced));
    let none = parse_blocks::<Syntax>("", false).unwrap();
    assert!(!needs_rewrite(&none));
}

#[test]
fn rewrite_writes_every_block_and_a_newline() {
    let mut blocks = parse_blocks::<Syntax>("a\n```x\n1\n```\nb\n```y --draft\n2\n```\ndropped", false).unwrap();
    blocks[0].result = Some(String::from("one"));
    blocks[1].result = Some(String::from("two"));
    assert_eq!(rewrite(&mut blocks), "a\n```x\n1\n```\nb\n```y --draft\ntwo\n```\n");
    assert!(blocks[0].result.is_none() && blocks[1].result.is_none());
    let mut none = parse_blocks::<Syntax>("", false).unwrap();
    assert_eq!(rewrite(&mut none), "\n");
}

#[test]
fn compare_takes_the_results() {
    let mut blocks = parse_blocks::<Syntax>("```x\n1\n```\n```y\n2\n```\n```z\n3\n```\n", false).unwrap();
    blocks[0].result = Some(String::from("1"));
    blocks[2].result = Some(String::from("4"));
    let found = compare(&mut blocks);
    assert_eq!(found.len(), 1);
    assert_eq!(found[0].index, 2);
    assert_eq!(found[0].expected, "3");
    assert_eq!(found[0].actual, "4");
    assert!(!found[0].diff.is_empty());
    assert!(blocks.iter().all(|block| block.result.is_none()));
    assert_eq!(compare(&mut blocks).len(), 0);
}

#[test]
fn reconcile_ends_the_pass() {
    let mut blocks = parse_blocks::<Syntax>("```x\n1\n```\n", false).unwrap();
    blocks[0].result = Some(String::from("1"));
    assert!(matches!(reconcile(blocks), Outcome::Passed));
    let mut blocks = parse_blocks::<Syntax>("```x\n1\n```\n", false).unwrap();
    blocks[0].result = Some(String::from("2"));
    assert!(matches!(reconcile(blocks), Outcome::Failed { .. }));
    let mut blocks = parse_blocks::<Syntax>("```x\n1\n```\n", true).unwrap();
    blocks[0].result = Some(String::from("2"));
    assert_eq!(updated(reconcile(blocks)), "```x\n2\n```\n");
}

#[test]
fn a_canonical_file_is_kept() {
    let content = "# Title\n\n```rust\nfn main() {}\n```\n\ntext\n\n```out --trivia\nline 1\n\nline 3\n\n```\n";
    let mut blocks = parse_blocks::<Syntax>(content, false).unwrap();
    assert_eq!(rewrite(&mut blocks), content);
    let mut blocks = parse_blocks::<Syntax>(content, true).unwrap();
    assert_eq!(rewrite(&mut blocks), content);
}

#[test]
fn a_newline_is_added_to_a_file_that_ends_with_a_fence() {
    let content = "```rust\nfoo\n```";
    let mut blocks = parse_blocks::<Syntax>(content, false).unwrap();
    assert_eq!(rewrite(&mut blocks), "```rust\nfoo\n```\n");
}

#[test]
fn a_file_in_another_form_is_brought_into_form() {
    let content = "```rust   --trivia \nfoo```\ntrailing words";
    let mut blocks = parse_blocks::<Syntax>(content, false).unwrap();
    assert_eq!(rewrite(&mut blocks), "```rust --trivia\nfoo\n```\n");
}

#[test]
fn the_pass_after_a_rewrite_succeeds() {
    let content = "input:\n```in\nabc\n```\noutput:\n```out\nstale\n```\nmore:\n```out\n```\n";
    let first = run_test::<Syntax, _>(content, true, upper()).unwrap();
    let written = updated(first);
    assert_eq!(written, "input:\n```in\nabc\n```\noutput:\n```out\nABC\n```\nmore:\n```out\nABC\n```\n");
    let second = run_test::<Syntax, _>(&written, false, upper()).unwrap();
    assert!(matches!(second, Outcome::Passed));
}

#[test]
fn a_file_that_was_rewritten_is_read_as_it_was_written() {
    let content = "a\n```x --trivia\n1\n```\nb\n```y\n```\n";
    let mut blocks = parse_blocks::<Syntax>(content, false).unwrap();
    blocks[1].result = Some(String::from("two\n"));
    let written = rewrite(&mut blocks);
    let again = parse_blocks::<Syntax>(&written, false).unwrap();
    assert_eq!(again.len(), 2);
    assert_eq!(again[0].comments, "a\n");
    assert_eq!(again[0].directives, "--trivia");
    assert_eq!(again[0].text, "1");
    assert_eq!(again[1].comments, "\nb\n");
    assert_eq!(again[1].lang, "y");
    assert_eq!(again[1].text, "two\n");
}

#[test]
fn a_draft_stays_a_draft_after_a_rewrite() {
    let first = run_test::<Syntax, _>("```rust --draft\nold\n```", false, echo("new")).unwrap();
    let written = updated(first);
    let second = run_test::<Syntax, _>(&written, false, echo("new")).unwrap();
    assert_eq!(updated(second), written);
}
