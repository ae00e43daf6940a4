use snapdown::directive::{parse_arguments, Arguments, DirectiveError, Extension, Syntax};

#[test]
fn no_directive_sets_nothing() {
    let arguments: Arguments<Syntax> = parse_arguments("").unwrap();
    assert!(!arguments.draft);
    assert!(!arguments.rest.trivia);
}

#[test]
fn draft_flag_sets_draft() {
    let arguments: Arguments<Syntax> = parse_arguments("--draft").unwrap();
    assert!(arguments.draft);
    assert!(!arguments.rest.trivia);
}

#[test]
fn extension_flag_goes_to_the_extension() {
    let arguments: Arguments<Syntax> = parse_arguments("--trivia").unwrap();
    assert!(!arguments.draft);
    assert!(arguments.rest.trivia);
}

#[test]
fn flags_come_in_any_order() {
    let first: Arguments<Syntax> = parse_arguments("--draft --trivia").unwrap();
    assert!(first.draft && first.rest.trivia);
    let second: Arguments<Syntax> = parse_arguments("--trivia --draft").unwrap();
    assert!(second.draft && second.rest.trivia);
}

#[test]
fn repeated_spaces_are_tolerated() {
    let arguments: Arguments<Syntax> = parse_arguments(" --draft    --trivia  ").unwrap();
    assert!(arguments.draft);
    assert!(arguments.rest.trivia);
    let only_spaces: Arguments<Syntax> = parse_arguments("   ").unwrap();
    assert!(!only_spaces.draft);
}

#[test]
fn a_flag_given_twice_is_set() {
    let arguments: Arguments<Syntax> = parse_arguments("--draft --draft").unwrap();
    assert!(arguments.draft);
}

#[test]
fn unknown_token_is_an_error() {
    let error: DirectiveError = parse_arguments::<Syntax>("--bogus").unwrap_err();
    assert_eq!(error.token, "--bogus");
}

#[test]
fn the_first_unknown_token_is_named() {
    let error = parse_arguments::<Syntax>("--draft one --trivia two").unwrap_err();
    assert_eq!(error.token, "one");
    let error = parse_arguments::<Syntax>("--Draft").unwrap_err();
    assert_eq!(error.token, "--Draft");
    let error = parse_arguments::<Syntax>("--draft\t--trivia").unwrap_err();
    assert_eq!(error.token, "--draft\t--trivia");
}

#[test]
fn error_message_names_the_token() {
    let error = parse_arguments::<Syntax>("--bogus").unwrap_err();
    assert_eq!(error.message(), "unrecognized directive `--bogus`");
}

#[test]
fn syntax_accepts_only_its_flag() {
    let mut syntax = Syntax::new();
    assert!(!syntax.trivia);
    assert!(!syntax.accept("--draft"));
    assert!(!syntax.accept("trivia"));
    assert!(!syntax.trivia);
    assert!(syntax.accept("--trivia"));
    assert!(syntax.trivia);
    assert!(syntax.accept("--trivia"));
    assert!(syntax.trivia);
}

#[derive(Debug, Default)]
struct Shell {
    quiet: bool,
    stderr: bool,
}

impl Extension for Shell {
    fn new() -> Self {
        Shell::default()
    }

    fn accept(&mut self, token: &str) -> bool {
        match token {
            "--quiet" => self.quiet = true,
            "--stderr" => self.stderr = true,
            _ => return false,
        }
        true
    }
}

#[test]
fn an_extension_of_the_caller_gets_its_flags() {
    let arguments: Arguments<Shell> = parse_arguments("--stderr --draft").unwrap();
    assert!(arguments.draft);
    assert!(arguments.rest.stderr);
    assert!(!arguments.rest.quiet);
    let error = parse_arguments::<Shell>("--quiet --trivia").unwrap_err();
    assert_eq!(error.token, "--trivia");
}
