//! The directives of a header line: tokens, the flags of the core and of an extension, and
//! what the directives ask for.

use vstd::prelude::*;
use vstd::string::*;
use crate::text::{
    lemma_no_split_no_char, lemma_split_at_char, lemma_split_once_parts, split_once,
    split_once_spec, str_eq,
};

verus! {

/// The separator of the tokens of a directive string.
pub open spec fn space() -> Seq<char> {
    seq![' ']
}

/// The flag that marks a block as a draft.
pub open spec fn draft_flag() -> Seq<char> {
    "--draft"@
}

/// The tokens of a directive string: its parts between single spaces, without the empty ones.
pub open spec fn tokens(directives: Seq<char>) -> Seq<Seq<char>>
    decreases directives.len(),
{
    match split_once_spec(directives, space()) {
        Some((head, tail)) => {
            if head.len() > 0 {
                seq![head] + tokens(tail)
            } else {
                tokens(tail)
            }
        },
        None => {
            if directives.len() > 0 {
                seq![directives]
            } else {
                seq![]
            }
        },
    }
}

/// No token is empty, and none holds a space.
pub proof fn lemma_tokens_are_words(directives: Seq<char>)
    ensures
        forall|i: int|
            0 <= i < tokens(directives).len() ==> (#[trigger] tokens(directives)[i]).len() > 0
                && !tokens(directives)[i].contains(' '),
    decreases directives.len(),
{
    match split_once_spec(directives, space()) {
        Some((head, tail)) => {
            lemma_split_once_parts(directives, space());
            lemma_split_at_char(directives, ' ');
            lemma_tokens_are_words(tail);
            assert forall|i: int| 0 <= i < tokens(directives).len() implies (
            #[trigger] tokens(directives)[i]).len() > 0 && !tokens(directives)[i].contains(' ') by {
                if head.len() > 0 {
                    if i > 0 {
                        assert(tokens(directives)[i] == tokens(tail)[i - 1]);
                    }
                }
            }
        },
        None => {
            lemma_no_split_no_char(directives, ' ');
        },
    }
}

/// The flags that a family of tests adds to the core's own.
///
/// An implementation says in `recognizes` which tokens are its flags, in `unset` what the
/// configuration is before any of them, and in `with_flag` what each of them does to it.
/// The names of the core's flags come first: a token that is one of them is never handed
/// to the extension.
pub trait Extension: Sized {
    /// Whether `token` is one of the flags of this extension.
    open spec fn recognizes(token: Seq<char>) -> bool {
        false
    }

    /// The configuration in which no flag was given.
    open spec fn unset() -> Self {
        arbitrary()
    }

    /// The configuration `self` after the flag `token` was given.
    open spec fn with_flag(self, token: Seq<char>) -> Self {
        self
    }

    /// The configuration in which no flag was given.
    fn new() -> (r: Self)
        ensures
            r == Self::unset(),
    ;

    /// Takes `token` into the configuration if it is a flag of this extension, and says
    /// whether it is one.
    fn accept(&mut self, token: &str) -> (known: bool)
        ensures
            known == Self::recognizes(token@),
            known ==> *final(self) == old(self).with_flag(token@),
            !known ==> *final(self) == *old(self),
    ;
}

/// The flags of the syntax tests.
#[derive(Debug)]
pub struct Syntax {
    /// Whether trivia is shown.
    pub trivia: bool,
}

/// The flag that asks the syntax tests to show trivia.
pub open spec fn trivia_flag() -> Seq<char> {
    "--trivia"@
}

impl Extension for Syntax {
    open spec fn recognizes(token: Seq<char>) -> bool {
        token == trivia_flag()
    }

    open spec fn unset() -> Self {
        Syntax { trivia: false }
    }

    open spec fn with_flag(self, token: Seq<char>) -> Self {
        Syntax { trivia: true }
    }

    fn new() -> (r: Self) {
        Syntax { trivia: false }
    }

    fn accept(&mut self, token: &str) -> (known: bool) {
        if str_eq(token, "--trivia") {
            self.trivia = true;
            true
        } else {
            false
        }
    }
}

/// What the directives of a block ask for.
#[derive(Debug)]
pub struct Arguments<E> {
    /// Whether the block's text is to be replaced by what was computed.
    pub draft: bool,
    /// The flags of the extension.
    pub rest: E,
}

/// A directive token that neither the core nor the extension defines.
#[derive(Debug)]
pub struct DirectiveError {
    /// The token as it stands in the directives.
    pub token: String,
}

impl DirectiveError {
    /// What is said of the token where the pass fails.
    pub open spec fn message_spec(token: Seq<char>) -> Seq<char> {
        "unrecognized directive `"@ + token + "`"@
    }

    /// A message for the reader, which names the token.
    pub fn message(&self) -> (out: String)
        ensures
            out@ == Self::message_spec(self.token@),
    {
        let mut out = String::from_str("unrecognized directive `");
        out.append(self.token.as_str());
        out.append("`");
        out
    }
}

/// Whether `token` is a flag of the core or of the extension `E`.
pub open spec fn known<E: Extension>(token: Seq<char>) -> bool {
    token == draft_flag() || E::recognizes(token)
}

/// Whether every token is a flag of the core or of the extension `E`.
pub open spec fn all_known<E: Extension>(tokens: Seq<Seq<char>>) -> bool {
    forall|i: int| 0 <= i < tokens.len() ==> known::<E>(#[trigger] tokens[i])
}

/// Whether the token at `i` is the first that is no flag of the core or of the extension `E`.
pub open spec fn first_unknown_at<E: Extension>(tokens: Seq<Seq<char>>, i: int) -> bool {
    0 <= i < tokens.len() && !known::<E>(tokens[i]) && all_known::<E>(tokens.take(i))
}

/// Whether `token` is left to the extension `E`: it is one of its flags, and no flag of the
/// core, whose names come first.
pub open spec fn extends<E: Extension>(token: Seq<char>) -> bool {
    token != draft_flag() && E::recognizes(token)
}

/// The configuration of the extension `E` after its flags among `tokens` were given, in
/// their order.
pub open spec fn extension_of<E: Extension>(tokens: Seq<Seq<char>>) -> E
    decreases tokens.len(),
{
    if tokens.len() == 0 {
        E::unset()
    } else if extends::<E>(tokens.last()) {
        extension_of::<E>(tokens.drop_last()).with_flag(tokens.last())
    } else {
        extension_of::<E>(tokens.drop_last())
    }
}

/// What a list of tokens asks for, or the first token that no flag is defined for.
pub open spec fn arguments_of<E: Extension>(tokens: Seq<Seq<char>>) -> Result<
    Arguments<E>,
    Seq<char>,
> {
    if all_known::<E>(tokens) {
        Ok(Arguments { draft: tokens.contains(draft_flag()), rest: extension_of::<E>(tokens) })
    } else {
        Err(tokens[choose|i: int| first_unknown_at::<E>(tokens, i)])
    }
}

/// What a directive string asks for, or its first token that no flag is defined for.
#[verifier::opaque]
pub open spec fn parse_arguments_spec<E: Extension>(directives: Seq<char>) -> Result<
    Arguments<E>,
    Seq<char>,
> {
    arguments_of::<E>(tokens(directives))
}

/// Where the token at `i` is the first unknown one, the list asks for nothing and names it.
proof fn lemma_first_unknown<E: Extension>(tokens: Seq<Seq<char>>, i: int)
    requires
        first_unknown_at::<E>(tokens, i),
    ensures
        arguments_of::<E>(tokens) == Err::<Arguments<E>, Seq<char>>(tokens[i]),
{
    let j = choose|j: int| first_unknown_at::<E>(tokens, j);
    if j < i {
        assert(tokens.take(i)[j] == tokens[j]);
    }
    if i < j {
        assert(tokens.take(j)[i] == tokens[i]);
    }
}

/// One more token, of the core or of the extension, behind a list whose tokens all are.
proof fn lemma_one_more_known<E: Extension>(seen: Seq<Seq<char>>, token: Seq<char>)
    requires
        all_known::<E>(seen),
        known::<E>(token),
    ensures
        all_known::<E>(seen.push(token)),
        seen.push(token).contains(draft_flag()) == (seen.contains(draft_flag()) || token
            == draft_flag()),
        extension_of::<E>(seen.push(token)) == if extends::<E>(token) {
            extension_of::<E>(seen).with_flag(token)
        } else {
            extension_of::<E>(seen)
        },
{
    let more = seen.push(token);
    assert(more.drop_last() =~= seen);
    assert(more.last() == token);
    if seen.contains(draft_flag()) {
        let k = choose|k: int| 0 <= k < seen.len() && seen[k] == draft_flag();
        assert(more[k] == draft_flag());
    }
    if token == draft_flag() {
        assert(more[seen.len() as int] == draft_flag());
    }
}

/// Takes one token into the arguments gathered so far: `Ok` with the new arguments where a
/// flag is defined for it, else `Err` with the token.
fn accept_token<E: Extension>(draft: bool, rest: E, token: &str) -> (r: Result<
    (bool, E),
    DirectiveError,
>)
    ensures
        match r {
            Ok((d, e)) => known::<E>(token@) && d == (draft || token@ == draft_flag()) && e
                == if extends::<E>(token@) {
                rest.with_flag(token@)
            } else {
                rest
            },
            Err(e) => !known::<E>(token@) && e.token@ == token@,
        },
{
    let mut rest = rest;
    if str_eq(token, "--draft") {
        Ok((true, rest))
    } else if rest.accept(token) {
        Ok((draft, rest))
    } else {
        Err(DirectiveError { token: token.to_owned() })
    }
}

/// Reads the directives of a block: `Ok` with what they ask for, or `Err` with the first
/// token that neither the core nor the extension `E` defines a flag for.
pub fn parse_arguments<E: Extension>(directives: &str) -> (r: Result<Arguments<E>, DirectiveError>)
    ensures
        match parse_arguments_spec::<E>(directives@) {
            Ok(a) => r matches Ok(x) && x == a,
            Err(t) => r matches Err(e) && e.token@ == t,
        },
{
    let mut draft = false;
    let mut rest = E::new();
    let mut cur = directives;
    let ghost mut seen: Seq<Seq<char>> = seq![];
    proof {
        reveal_strlit(" ");
        assert(" "@ =~= space());
    }
    loop
        invariant
            " "@ == space(),
            tokens(directives@) == seen + tokens(cur@),
            all_known::<E>(seen),
            draft == seen.contains(draft_flag()),
            rest == extension_of::<E>(seen),
        decreases cur@.len(),
    {
        proof {
            reveal(parse_arguments_spec);
        }
        match split_once(cur, " ") {
            Some((head, tail)) => {
                if !head.is_empty() {
                    match accept_token(draft, rest, head) {
                        Ok((d, e)) => {
                            proof {
                                lemma_one_more_known::<E>(seen, head@);
                                assert(seen.push(head@) + tokens(tail@) =~= seen + tokens(cur@));
                                seen = seen.push(head@);
                            }
                            draft = d;
                            rest = e;
                        },
                        Err(e) => {
                            proof {
                                let all = tokens(directives@);
                                assert(all.take(seen.len() as int) =~= seen);
                                assert(all[seen.len() as int] == head@);
                                lemma_first_unknown::<E>(all, seen.len() as int);
                            }
                            return Err(e);
                        },
                    }
                }
                cur = tail;
            },
            None => {
                if !cur.is_empty() {
                    match accept_token(draft, rest, cur) {
                        Ok((d, e)) => {
                            proof {
                                lemma_one_more_known::<E>(seen, cur@);
                                assert(seen.push(cur@) =~= seen + tokens(cur@));
                                assert(tokens(directives@) == seen.push(cur@));
                            }
                            return Ok(Arguments { draft: d, rest: e });
                        },
                        Err(e) => {
                            proof {
                                let all = tokens(directives@);
                                assert(all.take(seen.len() as int) =~= seen);
                                assert(all[seen.len() as int] == cur@);
                                lemma_first_unknown::<E>(all, seen.len() as int);
                            }
                            return Err(e);
                        },
                    }
                }
                proof {
                    assert(seen + tokens(cur@) =~= seen);
                }
                return Ok(Arguments { draft, rest });
            },
        }
    }
}

} // verus!
