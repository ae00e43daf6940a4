//! A pass over the blocks of a file: reading them all, writing the file anew or comparing.

use vstd::prelude::*;
use vstd::string::*;
use crate::block::{lemma_parse_block_shortens, parse_block, parse_block_spec, Block, BlockView};
use crate::directive::{Arguments, DirectiveError, Extension};
use crate::text::str_eq;

verus! {

/// What a list of blocks holds, as plain text.
pub open spec fn views<'a, E>(blocks: Seq<Block<'a, E>>) -> Seq<BlockView<E>> {
    blocks.map_values(|b: Block<'a, E>| b@)
}

impl<E> BlockView<E> {
    /// The block as the pass takes it: a draft wherever the refresh override is on.
    pub open spec fn refreshed(self, force_draft: bool) -> Self {
        BlockView {
            arguments: Arguments {
                draft: self.arguments.draft || force_draft,
                rest: self.arguments.rest,
            },
            ..self
        }
    }
}

/// The blocks of a text in their order, each a draft where `force_draft` is set, or the
/// first directive token in the text that no flag is defined for.
pub open spec fn parse_blocks_spec<E: Extension>(content: Seq<char>, force_draft: bool) -> Result<
    Seq<BlockView<E>>,
    Seq<char>,
>
    decreases content.len(),
{
    match parse_block_spec::<E>(content) {
        Err(token) => Err(token),
        Ok(None) => Ok(Seq::empty()),
        Ok(Some((rest, block))) => {
            proof {
                lemma_parse_block_shortens::<E>(content);
            }
            match parse_blocks_spec::<E>(rest, force_draft) {
                Err(token) => Err(token),
                Ok(blocks) => Ok(seq![block.refreshed(force_draft)] + blocks),
            }
        },
    }
}

/// Reads all the blocks of `content`, in their order.
///
/// Reading stops without an error where no complete fenced region is left. It fails at the
/// first directive token that neither the core nor the extension `E` defines a flag for.
/// With `force_draft` every block is a draft, whatever its directives say.
pub fn parse_blocks<'a, E: Extension>(content: &'a str, force_draft: bool) -> (r: Result<
    Vec<Block<'a, E>>,
    DirectiveError,
>)
    ensures
        match parse_blocks_spec::<E>(content@, force_draft) {
            Ok(blocks) => r matches Ok(v) && views(v@) == blocks,
            Err(token) => r matches Err(e) && e.token@ == token,
        },
{
    let mut blocks: Vec<Block<'a, E>> = Vec::new();
    let mut cur = content;
    loop
        invariant
            match parse_blocks_spec::<E>(cur@, force_draft) {
                Ok(more) => parse_blocks_spec::<E>(content@, force_draft) == Ok::<
                    Seq<BlockView<E>>,
                    Seq<char>,
                >(views(blocks@) + more),
                Err(token) => parse_blocks_spec::<E>(content@, force_draft) == Err::<
                    Seq<BlockView<E>>,
                    Seq<char>,
                >(token),
            },
        decreases cur@.len(),
    {
        match parse_block::<E>(cur) {
            Err(e) => {
                return Err(e);
            },
            Ok(None) => {
                proof {
                    assert(views(blocks@) + Seq::<BlockView<E>>::empty() =~= views(blocks@));
                }
                return Ok(blocks);
            },
            Ok(Some((rest, block))) => {
                let mut block = block;
                if force_draft {
                    block.arguments.draft = true;
                }
                proof {
                    lemma_parse_block_shortens::<E>(cur@);
                    let ghost before = views(blocks@);
                    let ghost more = parse_blocks_spec::<E>(rest@, force_draft);
                    if more is Ok {
                        assert(views(blocks@.push(block)) + more->Ok_0 =~= before + (seq![block@]
                            + more->Ok_0));
                    }
                }
                blocks.push(block);
                cur = rest;
            },
        }
    }
}

/// Whether a pass over these blocks writes the file anew: one of them is a draft or has
/// an empty text.
pub open spec fn needs_rewrite_spec<E>(blocks: Seq<BlockView<E>>) -> bool {
    exists|i: int| 0 <= i < blocks.len() && (#[trigger] blocks[i]).wants_result()
}

/// Whether a pass over `blocks` writes the file anew, and does not compare.
pub fn needs_rewrite<'a, E>(blocks: &Vec<Block<'a, E>>) -> (r: bool)
    ensures
        r == needs_rewrite_spec(views(blocks@)),
{
    let n: usize = blocks.len();
    let mut i: usize = 0;
    while i < n
        invariant
            i <= n,
            n == blocks@.len(),
            forall|j: int| 0 <= j < i ==> !(#[trigger] views(blocks@)[j]).wants_result(),
        decreases n - i,
    {
        if blocks[i].arguments.draft || blocks[i].text.is_empty() {
            proof {
                assert(views(blocks@)[i as int].wants_result());
            }
            return true;
        }
        i += 1;
    }
    false
}

/// The blocks written out one behind the other.
pub open spec fn rendered_all<E>(blocks: Seq<BlockView<E>>) -> Seq<char>
    decreases blocks.len(),
{
    if blocks.len() == 0 {
        Seq::empty()
    } else {
        rendered_all(blocks.drop_last()) + blocks.last().rendered()
    }
}

/// The file that a rewrite makes of the blocks: all of them written out, and a newline.
pub open spec fn rewritten<E>(blocks: Seq<BlockView<E>>) -> Seq<char> {
    rendered_all(blocks) + seq!['\n']
}

/// Writes the file anew from its blocks, taking the result of each.
pub fn rewrite<'a, E>(blocks: &mut Vec<Block<'a, E>>) -> (out: String)
    ensures
        out@ == rewritten(views(old(blocks)@)),
        final(blocks)@.len() == old(blocks)@.len(),
        forall|i: int|
            0 <= i < old(blocks)@.len() ==> (#[trigger] final(blocks)@[i])@ == old(
                blocks,
            )@[i]@.without_result(),
{
    let n: usize = blocks.len();
    let mut out = String::new();
    let mut i: usize = 0;
    while i < n
        invariant
            i <= n,
            n == blocks@.len(),
            n == old(blocks)@.len(),
            out@ == rendered_all(views(old(blocks)@).take(i as int)),
            forall|j: int|
                0 <= j < i ==> (#[trigger] blocks@[j])@ == old(blocks)@[j]@.without_result(),
            forall|j: int| i <= j < n ==> blocks@[j] == old(blocks)@[j],
        decreases n - i,
    {
        let piece = blocks[i].render();
        out.append(piece.as_str());
        proof {
            let all = views(old(blocks)@);
            assert(all.take(i + 1).drop_last() =~= all.take(i as int));
            assert(all.take(i + 1).last() == old(blocks)@[i as int]@);
        }
        i += 1;
    }
    proof {
        reveal_strlit("\n");
        assert("\n"@ =~= seq!['\n']);
        assert(views(old(blocks)@).take(n as int) =~= views(old(blocks)@));
    }
    out.append("\n");
    out
}

impl<E> BlockView<E> {
    /// Whether something was computed for the block that is not its text.
    pub open spec fn mismatch(self) -> bool {
        self.result matches Some(r) && r != self.text
    }
}

/// The places, in their order, of the blocks for which something was computed that is not
/// their text.
pub open spec fn mismatched<E>(blocks: Seq<BlockView<E>>) -> Seq<int>
    decreases blocks.len(),
{
    if blocks.len() == 0 {
        Seq::empty()
    } else if blocks.last().mismatch() {
        mismatched(blocks.drop_last()).push(blocks.len() - 1)
    } else {
        mismatched(blocks.drop_last())
    }
}

/// A block whose text is not what was computed for it.
#[derive(Debug)]
pub struct Mismatch {
    /// The place of the block in the file, counted from 0.
    pub index: usize,
    /// The text of the block.
    pub expected: String,
    /// What was computed for the block.
    pub actual: String,
    /// The two set against each other line by line, for a reader.
    pub diff: String,
}

impl Mismatch {
    /// Whether this is the mismatch of the block at `index` among `blocks`.
    pub open spec fn reports<E>(self, blocks: Seq<BlockView<E>>, index: int) -> bool {
        &&& 0 <= index < blocks.len()
        &&& self.index == index
        &&& self.expected@ == blocks[index].text
        &&& blocks[index].result == Some(self.actual@)
    }
}

/// Whether `found` lists the mismatches among `blocks`: one entry for each block whose text
/// is not what was computed for it, in the order of the blocks, and no other.
pub open spec fn lists_mismatches<E>(found: Seq<Mismatch>, blocks: Seq<BlockView<E>>) -> bool {
    &&& found.len() == mismatched(blocks).len()
    &&& forall|k: int|
        0 <= k < found.len() ==> (#[trigger] found[k]).reports(blocks, mismatched(blocks)[k])
}

/// Sets two texts against each other for a reader, with `similar_asserts::SimpleDiff`: the
/// diff made by `SimpleDiff::from_str` of the two texts under the two labels, as its
/// `Display` writes it. Nothing is claimed of the text that comes back: its colours and the
/// number of lines it shows depend on the terminal and the environment.
#[verifier::external_body]
fn diff_text(expected: &str, actual: &str, expected_label: &str, actual_label: &str) -> String {
    similar_asserts::SimpleDiff::from_str(expected, actual, expected_label, actual_label)
        .to_string()
}

/// Compares the text of each block with what was computed for it, taking the result of
/// each, and lists the blocks where the two differ. A block for which nothing was computed
/// is not compared.
pub fn compare<'a, E>(blocks: &mut Vec<Block<'a, E>>) -> (found: Vec<Mismatch>)
    ensures
        lists_mismatches(found@, views(old(blocks)@)),
        final(blocks)@.len() == old(blocks)@.len(),
        forall|i: int|
            0 <= i < old(blocks)@.len() ==> (#[trigger] final(blocks)@[i])@ == old(
                blocks,
            )@[i]@.without_result(),
{
    let n: usize = blocks.len();
    let mut found: Vec<Mismatch> = Vec::new();
    let mut i: usize = 0;
    while i < n
        invariant
            i <= n,
            n == blocks@.len(),
            n == old(blocks)@.len(),
            lists_mismatches(found@, views(old(blocks)@).take(i as int)),
            forall|j: int|
                0 <= j < i ==> (#[trigger] blocks@[j])@ == old(blocks)@[j]@.without_result(),
            forall|j: int| i <= j < n ==> blocks@[j] == old(blocks)@[j],
        decreases n - i,
    {
        let ghost all = views(old(blocks)@);
        let ghost before = found@;
        proof {
            assert(all.take(i + 1).drop_last() =~= all.take(i as int));
            assert(all.take(i + 1).last() == old(blocks)@[i as int]@);
        }
        let expected: &str = blocks[i].text;
        match blocks[i].result.take() {
            Some(actual) => {
                if !str_eq(expected, actual.as_str()) {
                    let diff = diff_text(expected, actual.as_str(), "expected", "actual");
                    found.push(Mismatch { index: i, expected: expected.to_owned(), actual, diff });
                }
            },
            None => {},
        }
        proof {
            assert forall|k: int| 0 <= k < found@.len() implies (#[trigger] found@[k]).reports(
                all.take(i + 1),
                mismatched(all.take(i + 1))[k],
            ) by {
                if k < before.len() {
                    assert(found@[k] == before[k]);
                    assert(before[k].reports(
                        all.take(i as int),
                        mismatched(all.take(i as int))[k],
                    ));
                }
            }
        }
        i += 1;
    }
    proof {
        assert(views(old(blocks)@).take(n as int) =~= views(old(blocks)@));
    }
    found
}

/// How a pass over a file ended.
#[derive(Debug)]
pub enum Outcome {
    /// No block is a draft or empty, and no text differs from what was computed.
    Passed,
    /// A block is a draft or empty: the file is to be overwritten with `content`, and the
    /// pass run once more.
    Updated { content: String },
    /// No block is a draft or empty, and these differ from what was computed.
    Failed { mismatches: Vec<Mismatch> },
}

impl Outcome {
    /// Whether this is how a pass over `blocks` ends, once the results are in: an update
    /// with the file written anew where a block is a draft or empty; else a failure that
    /// lists the mismatches where there is one, and a pass where there is none.
    pub open spec fn ends<E>(self, blocks: Seq<BlockView<E>>) -> bool {
        match self {
            Outcome::Passed => !needs_rewrite_spec(blocks) && mismatched(blocks).len() == 0,
            Outcome::Updated { content } => needs_rewrite_spec(blocks) && content@ == rewritten(
                blocks,
            ),
            Outcome::Failed { mismatches } => !needs_rewrite_spec(blocks) && mismatches@.len() > 0
                && lists_mismatches(mismatches@, blocks),
        }
    }
}

/// Ends a pass over the blocks of a file, once the results are in.
///
/// Where a block is a draft or has an empty text, the file is written anew from all the
/// blocks and nothing is compared. Else each text is compared with what was computed for
/// it.
pub fn reconcile<'a, E>(blocks: Vec<Block<'a, E>>) -> (out: Outcome)
    ensures
        out.ends(views(blocks@)),
{
    let mut blocks = blocks;
    if needs_rewrite(&blocks) {
        Outcome::Updated { content: rewrite(&mut blocks) }
    } else {
        let mismatches = compare(&mut blocks);
        if mismatches.len() == 0 {
            Outcome::Passed
        } else {
            Outcome::Failed { mismatches }
        }
    }
}

/// Runs one pass over the text of a file: reads its blocks, hands them to `func`, which
/// stores what it computes in their `result`, and ends the pass on what `func` left.
///
/// Fails, before `func` is called, where a directive token has no flag defined for it.
pub fn run_test<'a, E: Extension, F>(content: &'a str, force_draft: bool, func: F) -> (r: Result<
    Outcome,
    DirectiveError,
>) where F: Fn(&mut Vec<Block<'a, E>>)
    requires
        forall|blocks: &mut Vec<Block<'a, E>>| call_requires(func, (blocks,)),
    ensures
        match parse_blocks_spec::<E>(content@, force_draft) {
            Err(token) => r matches Err(e) && e.token@ == token,
            Ok(parsed) => r matches Ok(out) && exists|given: &mut Vec<Block<'a, E>>|
                views(given@) == parsed && call_ensures(func, (given,), ()) && out.ends(
                    views(final(given)@),
                ),
        },
{
    let mut blocks = match parse_blocks::<E>(content, force_draft) {
        Ok(blocks) => blocks,
        Err(e) => {
            return Err(e);
        },
    };
    func(&mut blocks);
    Ok(reconcile(blocks))
}

} // verus!
