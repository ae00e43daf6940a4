//! A fenced block: how it is read from a text and how it is written out.

use vstd::prelude::*;
use vstd::string::*;
use crate::directive::{
    parse_arguments, parse_arguments_spec, space, Arguments, DirectiveError, Extension,
};
use crate::text::{
    first_at, lemma_first_char, lemma_split_once_at, lemma_split_once_parts, occurs_at, split_once,
    split_once_spec, strip_newline, strip_newline_spec, trim, trim_spec, trimmed,
};

verus! {

/// The delimiter that opens and closes a block.
pub open spec fn fence() -> Seq<char> {
    seq!['`', '`', '`']
}

/// The end of a line.
pub open spec fn newline() -> Seq<char> {
    seq!['\n']
}

/// One fenced region of a file, with the text that stands before it.
#[derive(Debug)]
pub struct Block<'a, E> {
    /// The text between the end of the block before and the opening fence of this one.
    pub comments: &'a str,
    /// What follows the opening fence, up to the first space or the end of the line.
    pub lang: &'a str,
    /// The rest of the header line, without the whitespace at its ends.
    pub directives: &'a str,
    /// What the directives ask for.
    pub arguments: Arguments<E>,
    /// The body between the fences, without the newline before the closing fence.
    pub text: &'a str,
    /// What was computed for this block, until it is rendered or compared.
    pub result: Option<String>,
}

/// What a block holds, as plain text.
pub struct BlockView<E> {
    /// The text before the opening fence.
    pub comments: Seq<char>,
    /// The language tag.
    pub lang: Seq<char>,
    /// The directives as they stand in the header line.
    pub directives: Seq<char>,
    /// What the directives ask for.
    pub arguments: Arguments<E>,
    /// The body as it stands in the file.
    pub text: Seq<char>,
    /// What was computed for the block, if anything.
    pub result: Option<Seq<char>>,
}

impl<'a, E> View for Block<'a, E> {
    type V = BlockView<E>;

    open spec fn view(&self) -> BlockView<E> {
        BlockView {
            comments: self.comments@,
            lang: self.lang@,
            directives: self.directives@,
            arguments: self.arguments,
            text: self.text@,
            result: match self.result {
                Some(r) => Some(r@),
                None => None,
            },
        }
    }
}

impl<E> BlockView<E> {
    /// The header line: the language tag and, behind one space, the directives if there are
    /// any, as they were read.
    pub open spec fn header(self) -> Seq<char> {
        if self.directives.len() > 0 {
            self.lang + space() + self.directives
        } else {
            self.lang
        }
    }

    /// The block written out around `body`.
    pub open spec fn framed(self, body: Seq<char>) -> Seq<char> {
        self.comments + fence() + self.header() + newline() + body + newline() + fence()
    }

    /// Whether the block takes what was computed in place of its text: it is a draft or
    /// its text is empty.
    pub open spec fn wants_result(self) -> bool {
        self.arguments.draft || self.text.len() == 0
    }

    /// The body that the block is written out with: what was computed, where the block
    /// takes it and there is something, else its text.
    pub open spec fn body(self) -> Seq<char> {
        match self.result {
            Some(r) if self.wants_result() => r,
            _ => self.text,
        }
    }

    /// The block written out.
    pub open spec fn rendered(self) -> Seq<char> {
        self.framed(self.body())
    }

    /// Whether the block can be read back from what it is written out as: no fence stands
    /// in the comments or in the text, nor begins in the comments; the language tag holds no
    /// space and no newline; the directives hold no newline and neither begin nor end with
    /// whitespace. A block that was read from a text is so.
    pub open spec fn well_formed(self) -> bool {
        &&& first_at(self.comments + fence(), fence(), self.comments.len() as int)
        &&& !self.lang.contains(' ')
        &&& !self.lang.contains('\n')
        &&& !self.directives.contains('\n')
        &&& trimmed(self.directives)
        &&& forall|j: int| !occurs_at(self.text, fence(), j)
    }

    /// The block after its result was taken.
    pub open spec fn without_result(self) -> Self {
        BlockView { result: None, ..self }
    }
}

/// The parts of the first fenced region of a text.
pub struct Fenced {
    /// What stands before the opening fence.
    pub comments: Seq<char>,
    /// The line behind the opening fence.
    pub header: Seq<char>,
    /// What stands between the header line and the closing fence.
    pub body: Seq<char>,
    /// What stands behind the closing fence.
    pub rest: Seq<char>,
}

/// Finds the first fenced region of `content`: an opening fence, a header line that is
/// ended by a newline, and a closing fence.
#[verifier::opaque]
pub open spec fn scan(content: Seq<char>) -> Option<Fenced> {
    match split_once_spec(content, fence()) {
        None => None,
        Some((comments, opened)) => match split_once_spec(opened, newline()) {
            None => None,
            Some((header, inside)) => match split_once_spec(inside, fence()) {
                None => None,
                Some((body, rest)) => Some(Fenced { comments, header, body, rest }),
            },
        },
    }
}

/// The parts of the first fenced region make the text up, and each delimiter is the first
/// of its kind behind the part before it.
pub proof fn lemma_scan_parts(content: Seq<char>)
    ensures
        scan(content) matches Some(found) ==> {
            &&& content == found.comments + fence() + found.header + newline() + found.body
                + fence() + found.rest
            &&& first_at(found.comments + fence(), fence(), found.comments.len() as int)
            &&& !found.header.contains('\n')
            &&& first_at(found.body + fence(), fence(), found.body.len() as int)
            &&& found.rest.len() < content.len()
        },
{
    reveal(scan);
    if let Some(found) = scan(content) {
        let (comments, opened) = split_once_spec(content, fence())->Some_0;
        let (header, inside) = split_once_spec(opened, newline())->Some_0;
        lemma_split_once_parts(content, fence());
        lemma_split_once_parts(opened, newline());
        lemma_split_once_parts(inside, fence());
        lemma_first_char(header, '\n');
        assert(content =~= found.comments + fence() + found.header + newline() + found.body
            + fence() + found.rest);
    }
}

/// A text that is made up of such parts has them as the parts of its first fenced region.
pub proof fn lemma_scan_of_parts(
    comments: Seq<char>,
    header: Seq<char>,
    body: Seq<char>,
    rest: Seq<char>,
)
    requires
        first_at(comments + fence(), fence(), comments.len() as int),
        !header.contains('\n'),
        first_at(body + fence(), fence(), body.len() as int),
    ensures
        scan(comments + fence() + header + newline() + body + fence() + rest) == Some(
            Fenced { comments, header, body, rest },
        ),
{
    reveal(scan);
    let inside = body + fence() + rest;
    let opened = header + newline() + inside;
    let content = comments + fence() + header + newline() + body + fence() + rest;
    assert(content =~= comments + fence() + opened);
    lemma_split_once_at(comments, fence(), opened);
    lemma_first_char(header, '\n');
    lemma_split_once_at(header, newline(), inside);
    lemma_split_once_at(body, fence(), rest);
}

/// A text in which no fence stands holds no fenced region.
pub proof fn lemma_scan_without_fence(content: Seq<char>)
    requires
        forall|j: int| !occurs_at(content, fence(), j),
    ensures
        scan(content) is None,
{
    reveal(scan);
    assert(forall|j: int| !first_at(content, fence(), j));
}

/// The language tag of a header line: what stands before its first space.
pub open spec fn lang_of(header: Seq<char>) -> Seq<char> {
    match split_once_spec(header, space()) {
        Some((lang, _)) => lang,
        None => header,
    }
}

/// The directives of a header line: what stands behind its first space, without the
/// whitespace at its ends.
pub open spec fn directives_of(header: Seq<char>) -> Seq<char> {
    match split_once_spec(header, space()) {
        Some((_, directives)) => trim_spec(directives),
        None => Seq::empty(),
    }
}

/// What `parse_block` makes of a text: `Ok(None)` where it holds no fenced region,
/// `Ok(Some(..))` with what stands behind the first one and the block read from it, and
/// `Err(..)` with the first token of its directives that no flag is defined for.
#[verifier::opaque]
pub open spec fn parse_block_spec<E: Extension>(content: Seq<char>) -> Result<
    Option<(Seq<char>, BlockView<E>)>,
    Seq<char>,
> {
    match scan(content) {
        None => Ok(None),
        Some(found) => match parse_arguments_spec::<E>(directives_of(found.header)) {
            Err(token) => Err(token),
            Ok(arguments) => Ok(
                Some(
                    (
                        found.rest,
                        BlockView {
                            comments: found.comments,
                            lang: lang_of(found.header),
                            directives: directives_of(found.header),
                            arguments,
                            text: strip_newline_spec(found.body),
                            result: None,
                        },
                    ),
                ),
            ),
        },
    }
}

/// What stands behind the first block of a text is shorter than the text, and no block is
/// read from a text without a fenced region.
pub proof fn lemma_parse_block_shortens<E: Extension>(content: Seq<char>)
    ensures
        parse_block_spec::<E>(content) matches Ok(Some((rest, _))) ==> rest.len() < content.len(),
        scan(content) is None ==> parse_block_spec::<E>(content) == Ok::<
            Option<(Seq<char>, BlockView<E>)>,
            Seq<char>,
        >(None),
{
    reveal(parse_block_spec);
    lemma_scan_parts(content);
}

/// Reads the first block of `content`.
///
/// Returns `Ok(None)` where no complete fenced region is left, `Ok(Some((rest, block)))`
/// with what stands behind the region, and `Err(..)` where the region's directives hold a
/// token that neither the core nor the extension `E` defines a flag for.
pub fn parse_block<'a, E: Extension>(content: &'a str) -> (r: Result<
    Option<(&'a str, Block<'a, E>)>,
    DirectiveError,
>)
    ensures
        match parse_block_spec::<E>(content@) {
            Ok(None) => r matches Ok(None),
            Ok(Some((rest, block))) => r matches Ok(Some((s, b))) && s@ == rest && b@ == block,
            Err(token) => r matches Err(e) && e.token@ == token,
        },
{
    proof {
        reveal(scan);
        reveal(parse_block_spec);
        reveal_strlit("```");
        reveal_strlit("\n");
        reveal_strlit(" ");
        assert("```"@ =~= fence());
        assert("\n"@ =~= newline());
        assert(" "@ =~= space());
    }
    let (comments, opened) = match split_once(content, "```") {
        Some(parts) => parts,
        None => {
            return Ok(None);
        },
    };
    let (header, inside) = match split_once(opened, "\n") {
        Some(parts) => parts,
        None => {
            return Ok(None);
        },
    };
    let (lang, directives) = match split_once(header, " ") {
        Some((lang, directives)) => (lang, trim(directives)),
        None => (header, ""),
    };
    let (body, rest) = match split_once(inside, "```") {
        Some(parts) => parts,
        None => {
            return Ok(None);
        },
    };
    let text = strip_newline(body);
    proof {
        reveal_strlit("");
        assert(""@ =~= Seq::<char>::empty());
    }
    let arguments = match parse_arguments::<E>(directives) {
        Ok(arguments) => arguments,
        Err(e) => {
            return Err(e);
        },
    };
    Ok(Some((rest, Block { comments, lang, directives, arguments, text, result: None })))
}

impl<'a, E> Block<'a, E> {
    /// Writes the block out and takes its result: the comments, the opening fence, the
    /// header line, the body and the closing fence.
    ///
    /// The body is what was computed where the block is a draft or its text is empty, and
    /// something was computed; else it is the text. The directives are written as they
    /// were read, whatever was made of them.
    pub fn render(&mut self) -> (out: String)
        ensures
            out@ == old(self)@.rendered(),
            final(self)@ == old(self)@.without_result(),
            old(self).result matches Some(r) ==> (old(self).arguments.draft ==> out@ == old(
                self,
            )@.framed(r@)),
            old(self).result matches Some(r) ==> (old(self).text@.len() == 0 ==> out@ == old(
                self,
            )@.framed(r@)),
            !old(self).arguments.draft && old(self).text@.len() > 0 ==> out@ == old(self)@.framed(
                old(self).text@,
            ),
            old(self).result is None ==> out@ == old(self)@.framed(old(self).text@),
    {
        proof {
            reveal_strlit("```");
            reveal_strlit("\n");
            reveal_strlit("\n```");
            reveal_strlit(" ");
            assert("```"@ =~= fence());
            assert("\n"@ =~= newline());
            assert("\n```"@ =~= newline() + fence());
            assert(" "@ =~= space());
        }
        let mut out = String::new();
        out.append(self.comments);
        out.append("```");
        out.append(self.lang);
        if !self.directives.is_empty() {
            out.append(" ");
            out.append(self.directives);
        }
        out.append("\n");
        let result = self.result.take();
        match result {
            Some(r) if self.arguments.draft || self.text.is_empty() => {
                out.append(r.as_str());
            },
            _ => {
                out.append(self.text);
            },
        }
        out.append("\n```");
        proof {
            assert(out@ =~= old(self)@.rendered());
        }
        out
    }
}

} // verus!
