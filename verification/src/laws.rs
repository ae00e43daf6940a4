//! What holds between reading and writing: blocks that were written out are read back, a
//! canonical file is kept, and a pass after a rewrite succeeds.

use vstd::prelude::*;
use crate::block::{
    directives_of, fence, lang_of, lemma_parse_block_shortens, lemma_scan_of_parts,
    lemma_scan_parts, lemma_scan_without_fence, newline, parse_block_spec, scan, BlockView,
};
use crate::directive::{parse_arguments_spec, space, Arguments, Extension};
use crate::pass::{mismatched, parse_blocks_spec, rendered_all, rewritten, Outcome};
use crate::text::{
    first_at, lemma_first_char, lemma_no_char_no_split, lemma_no_split_no_char,
    lemma_part_holds_no_more, lemma_split_at_char, lemma_split_once_at, lemma_split_once_parts,
    lemma_trim_holds_no_more, lemma_trim_keeps, lemma_trimmed_is_kept, occurs_at, split_once_spec,
    strip_newline_spec,
};

verus! {

/// Behind a body that holds no fence, and the newline that ends it, the closing fence is
/// the first.
proof fn lemma_closing_fence_is_first(body: Seq<char>)
    requires
        forall|j: int| !occurs_at(body, fence(), j),
    ensures
        first_at(body + newline() + fence(), fence(), body.len() as int + 1),
{
    let s = body + newline() + fence();
    assert(s.subrange(body.len() as int + 1, body.len() as int + 4) =~= fence());
    assert forall|j: int| 0 <= j < body.len() + 1 implies !occurs_at(s, fence(), j) by {
        if occurs_at(s, fence(), j) {
            if j + 3 <= body.len() {
                assert(body.subrange(j, j + 3) =~= s.subrange(j, j + 3));
                assert(occurs_at(body, fence(), j));
            } else {
                let k = body.len() - j;
                assert(s.subrange(j, j + 3)[k] == s[body.len() as int]);
                assert(fence()[k] == '`');
            }
        }
    }
}

/// A block that was read from a text is well formed, holds no result, and its arguments are
/// what its directives ask for.
pub proof fn lemma_read_block_is_well_formed<E: Extension>(content: Seq<char>)
    ensures
        parse_block_spec::<E>(content) matches Ok(Some((_, block))) ==> block.well_formed()
            && block.result is None && parse_arguments_spec::<E>(block.directives) == Ok::<
            Arguments<E>,
            Seq<char>,
        >(block.arguments),
{
    reveal(parse_block_spec);
    if let Ok(Some((rest, block))) = parse_block_spec::<E>(content) {
        let found = scan(content)->Some_0;
        let header = found.header;
        lemma_scan_parts(content);
        // The language tag and the directives are parts of the header line.
        lemma_split_at_char(header, ' ');
        match split_once_spec(header, space()) {
            Some((lang, raw)) => {
                lemma_split_once_parts(header, space());
                lemma_part_holds_no_more(header, lang, 0, '\n');
                lemma_part_holds_no_more(header, raw, lang.len() as int + 1, '\n');
                lemma_trim_holds_no_more(raw, '\n');
                lemma_trim_keeps(raw);
            },
            None => {
                lemma_no_split_no_char(header, ' ');
            },
        }
        // The text is a beginning of the body, in which no fence stands.
        assert forall|j: int| !occurs_at(block.text, fence(), j) by {
            if occurs_at(block.text, fence(), j) {
                assert(block.text.subrange(j, j + 3) =~= (found.body + fence()).subrange(j, j + 3));
                assert(occurs_at(found.body + fence(), fence(), j));
            }
        }
    }
}

impl<E: Extension> BlockView<E> {
    /// The block as it is read back from what it was written out as: its text is the body
    /// it was written with, its arguments are what its directives ask for, and it holds no
    /// result.
    pub open spec fn read_back(self) -> Self {
        BlockView {
            arguments: parse_arguments_spec::<E>(self.directives)->Ok_0,
            text: self.body(),
            result: None,
            ..self
        }
    }
}

/// The header line is written from the language tag and the directives as they were read,
/// whatever flags were made of them: blocks that differ in their arguments alone have the
/// same header line.
pub proof fn lemma_header_ignores_arguments<E>(block: BlockView<E>, arguments: Arguments<E>)
    ensures
        (BlockView { arguments, ..block }).header() == block.header(),
{
}

/// The language tag and the directives of a block are read back from its header line as
/// they stand in the block: the directives are written as they were read, whatever flags
/// were made of them.
pub proof fn lemma_header_reads_back<E>(block: BlockView<E>)
    requires
        block.well_formed(),
    ensures
        lang_of(block.header()) == block.lang,
        directives_of(block.header()) == block.directives,
        !block.header().contains('\n'),
{
    if block.directives.len() > 0 {
        lemma_first_char(block.lang, ' ');
        lemma_split_once_at(block.lang, space(), block.directives);
        lemma_trimmed_is_kept(block.directives);
        if block.header().contains('\n') {
            let k = choose|k: int| 0 <= k < block.header().len() && block.header()[k] == '\n';
            if k < block.lang.len() {
                assert(block.lang[k] == '\n');
            } else if k > block.lang.len() {
                assert(block.directives[k - block.lang.len() - 1] == '\n');
            }
        }
    } else {
        lemma_no_char_no_split(block.lang, ' ');
        assert(block.directives =~= Seq::<char>::empty());
    }
}

/// A well-formed block that is written out with a body in which no fence stands is read
/// back from what was written, whatever follows it: with the same comments, language tag
/// and directives, and the body as its text. Where its directives hold a token that no flag
/// is defined for, reading fails with that token.
pub proof fn lemma_rendered_block_reads_back<E: Extension>(block: BlockView<E>, rest: Seq<char>)
    requires
        block.well_formed(),
        forall|j: int| !occurs_at(block.body(), fence(), j),
    ensures
        parse_block_spec::<E>(block.rendered() + rest) == match parse_arguments_spec::<E>(
            block.directives,
        ) {
            Ok(_) => Ok::<Option<(Seq<char>, BlockView<E>)>, Seq<char>>(
                Some((rest, block.read_back())),
            ),
            Err(token) => Err(token),
        },
{
    reveal(parse_block_spec);
    let body = block.body();
    lemma_header_reads_back(block);
    lemma_closing_fence_is_first(body);
    assert((body + newline()) + fence() =~= body + newline() + fence());
    lemma_scan_of_parts(block.comments, block.header(), body + newline(), rest);
    assert(block.rendered() + rest =~= block.comments + fence() + block.header() + newline() + (body
        + newline()) + fence() + rest);
    assert((body + newline()).drop_last() =~= body);
    assert(strip_newline_spec(body + newline()) == body);
}

/// A whole list of blocks, each as it is read back from what it was written out as, and
/// each a draft where `force_draft` is set.
pub open spec fn read_back_all<E: Extension>(blocks: Seq<BlockView<E>>, force_draft: bool) -> Seq<
    BlockView<E>,
> {
    blocks.map_values(|b: BlockView<E>| b.read_back().refreshed(force_draft))
}

/// Whether a block can be read back from what it is written out as: it is well formed, no
/// fence stands in the body it is written with, and a flag is defined for each token of its
/// directives.
pub open spec fn can_be_read_back<E: Extension>(block: BlockView<E>) -> bool {
    &&& block.well_formed()
    &&& forall|j: int| !occurs_at(block.body(), fence(), j)
    &&& parse_arguments_spec::<E>(block.directives) is Ok
}

/// A block that is written out before a text is read before the blocks of that text:
/// blocks are read in the order in which they stand.
pub proof fn lemma_block_reads_back_first<E: Extension>(
    block: BlockView<E>,
    tail: Seq<char>,
    force_draft: bool,
)
    requires
        can_be_read_back(block),
    ensures
        parse_blocks_spec::<E>(block.rendered() + tail, force_draft) == match parse_blocks_spec::<
            E,
        >(tail, force_draft) {
            Ok(more) => Ok::<Seq<BlockView<E>>, Seq<char>>(
                seq![block.read_back().refreshed(force_draft)] + more,
            ),
            Err(token) => Err(token),
        },
{
    lemma_rendered_block_reads_back(block, tail);
}

/// Blocks that are written out one behind the other are read back one by one from what was
/// written, and what follows them is read behind them.
pub proof fn lemma_rendered_blocks_read_back<E: Extension>(
    blocks: Seq<BlockView<E>>,
    tail: Seq<char>,
    force_draft: bool,
)
    requires
        forall|i: int| 0 <= i < blocks.len() ==> can_be_read_back(#[trigger] blocks[i]),
    ensures
        parse_blocks_spec::<E>(rendered_all(blocks) + tail, force_draft) == match parse_blocks_spec::<
            E,
        >(tail, force_draft) {
            Ok(more) => Ok::<Seq<BlockView<E>>, Seq<char>>(
                read_back_all(blocks, force_draft) + more,
            ),
            Err(token) => Err(token),
        },
    decreases blocks.len(),
{
    if blocks.len() == 0 {
        assert(rendered_all(blocks) + tail =~= tail);
        if let Ok(more) = parse_blocks_spec::<E>(tail, force_draft) {
            assert(read_back_all(blocks, force_draft) + more =~= more);
        }
    } else {
        let init = blocks.drop_last();
        let last = blocks.last();
        let behind = last.rendered() + tail;
        assert(rendered_all(blocks) + tail =~= rendered_all(init) + behind);
        assert(can_be_read_back(last));
        lemma_block_reads_back_first(last, tail, force_draft);
        lemma_rendered_blocks_read_back(init, behind, force_draft);
        if let Ok(more) = parse_blocks_spec::<E>(tail, force_draft) {
            assert(read_back_all(init, force_draft) + (seq![
                last.read_back().refreshed(force_draft),
            ] + more) =~= read_back_all(blocks, force_draft) + more);
        }
    }
}

/// The file that a rewrite makes is read back as the blocks it was made from, each with the
/// body it was written with as its text.
pub proof fn lemma_rewritten_file_reads_back<E: Extension>(
    blocks: Seq<BlockView<E>>,
    force_draft: bool,
)
    requires
        forall|i: int| 0 <= i < blocks.len() ==> can_be_read_back(#[trigger] blocks[i]),
    ensures
        parse_blocks_spec::<E>(rewritten(blocks), force_draft) == Ok::<
            Seq<BlockView<E>>,
            Seq<char>,
        >(read_back_all(blocks, force_draft)),
{
    lemma_no_block_in_newline::<E>(force_draft);
    lemma_rendered_blocks_read_back(blocks, newline(), force_draft);
    assert(read_back_all(blocks, force_draft) + Seq::<BlockView<E>>::empty() =~= read_back_all(
        blocks,
        force_draft,
    ));
}

/// No block is read from an empty text, nor from a single newline.
proof fn lemma_no_block_in_newline<E: Extension>(force_draft: bool)
    ensures
        parse_blocks_spec::<E>(newline(), force_draft) == Ok::<Seq<BlockView<E>>, Seq<char>>(
            Seq::empty(),
        ),
        parse_blocks_spec::<E>(Seq::empty(), force_draft) == Ok::<Seq<BlockView<E>>, Seq<char>>(
            Seq::empty(),
        ),
{
    lemma_scan_without_fence(newline());
    lemma_scan_without_fence(Seq::empty());
    lemma_parse_block_shortens::<E>(newline());
    lemma_parse_block_shortens::<E>(Seq::empty());
}

/// The blocks that are read from a text are well formed and hold no result, and their
/// arguments are what their directives ask for, but that each is a draft where
/// `force_draft` is set.
pub proof fn lemma_read_blocks_are_well_formed<E: Extension>(content: Seq<char>, force_draft: bool)
    ensures
        parse_blocks_spec::<E>(content, force_draft) matches Ok(blocks) ==> forall|i: int|
            0 <= i < blocks.len() ==> {
                let block = #[trigger] blocks[i];
                &&& block.well_formed()
                &&& block.result is None
                &&& parse_arguments_spec::<E>(block.directives) matches Ok(asked)
                &&& block.arguments == Arguments {
                    draft: asked.draft || force_draft,
                    rest: asked.rest,
                }
            },
    decreases content.len(),
{
    if let Ok(blocks) = parse_blocks_spec::<E>(content, force_draft) {
        if let Ok(Some((rest, block))) = parse_block_spec::<E>(content) {
            lemma_parse_block_shortens::<E>(content);
            lemma_read_block_is_well_formed::<E>(content);
            lemma_read_blocks_are_well_formed::<E>(rest, force_draft);
            let more = parse_blocks_spec::<E>(rest, force_draft)->Ok_0;
            assert forall|i: int| 0 <= i < blocks.len() implies {
                let block = #[trigger] blocks[i];
                &&& block.well_formed()
                &&& block.result is None
                &&& parse_arguments_spec::<E>(block.directives) matches Ok(asked)
                &&& block.arguments == Arguments {
                    draft: asked.draft || force_draft,
                    rest: asked.rest,
                }
            } by {
                if i > 0 {
                    assert(blocks[i] == more[i - 1]);
                }
            }
        }
    }
}

/// Where nothing was computed that is not the text of its block, no mismatch is listed.
pub proof fn lemma_no_mismatch<E>(blocks: Seq<BlockView<E>>)
    requires
        forall|i: int| 0 <= i < blocks.len() ==> !(#[trigger] blocks[i]).mismatch(),
    ensures
        mismatched(blocks).len() == 0,
    decreases blocks.len(),
{
    if blocks.len() > 0 {
        assert(!blocks[blocks.len() - 1].mismatch());
        assert forall|i: int| 0 <= i < blocks.drop_last().len() implies !(
        #[trigger] blocks.drop_last()[i]).mismatch() by {
            assert(blocks.drop_last()[i] == blocks[i]);
        }
        lemma_no_mismatch(blocks.drop_last());
    }
}

/// The blocks with what a pass computed for them: `results` holds, for each block in its
/// order, what was stored in it, or nothing.
pub open spec fn with_results<E>(blocks: Seq<BlockView<E>>, results: Seq<Option<Seq<char>>>) -> Seq<
    BlockView<E>,
> {
    Seq::new(blocks.len(), |i: int| BlockView { result: results[i], ..blocks[i] })
}

/// Whether a block is at rest once it was written out: its directives do not ask for a
/// draft; the body it is written with is not empty and no fence stands in it; and where it
/// keeps its text, nothing else was computed for it.
pub open spec fn settles<E: Extension>(block: BlockView<E>) -> bool {
    &&& parse_arguments_spec::<E>(block.directives) matches Ok(asked) && !asked.draft
    &&& block.body().len() > 0
    &&& forall|j: int| !occurs_at(block.body(), fence(), j)
    &&& !block.wants_result() ==> !block.mismatch()
}

/// A pass that writes the file anew is followed by a pass that succeeds, where the same
/// is computed for each block in both and every block settles.
///
/// `results` is what is computed, block by block; `first` is how the pass over `content`
/// ended. The file it wrote is read as the same number of blocks, and with the same
/// results none of them is a draft or empty, and none differs from what was computed.
pub proof fn lemma_second_pass_succeeds<E: Extension>(
    content: Seq<char>,
    force_draft: bool,
    results: Seq<Option<Seq<char>>>,
    first: Outcome,
)
    requires
        parse_blocks_spec::<E>(content, force_draft) matches Ok(blocks) && {
            &&& results.len() == blocks.len()
            &&& first.ends(with_results(blocks, results))
            &&& forall|i: int|
                0 <= i < blocks.len() ==> settles(#[trigger] with_results(blocks, results)[i])
        },
        first is Updated,
    ensures
        parse_blocks_spec::<E>(first->content@, false) matches Ok(again) && again.len()
            == results.len() && Outcome::Passed.ends(with_results(again, results)),
{
    let blocks = parse_blocks_spec::<E>(content, force_draft)->Ok_0;
    let given = with_results(blocks, results);
    lemma_read_blocks_are_well_formed::<E>(content, force_draft);
    assert forall|i: int| 0 <= i < given.len() implies can_be_read_back(#[trigger] given[i]) by {
        assert(blocks[i].well_formed());
        assert(settles(given[i]));
    }
    lemma_rewritten_file_reads_back(given, false);
    let again = read_back_all(given, false);
    let second = with_results(again, results);
    assert forall|i: int| 0 <= i < second.len() implies !(#[trigger] second[i]).wants_result()
        && !second[i].mismatch() by {
        assert(settles(given[i]));
        assert(again[i] == given[i].read_back().refreshed(false));
    }
    lemma_no_mismatch(second);
}

/// The header line as it is written out for the language tag and the directives that are
/// read from `header`.
pub open spec fn written_header(header: Seq<char>) -> Seq<char> {
    if directives_of(header).len() > 0 {
        lang_of(header) + space() + directives_of(header)
    } else {
        lang_of(header)
    }
}

/// Whether a text is made of blocks in the form in which they are written out, and of
/// nothing else but one newline at its end, which may be missing: each header line is the
/// language tag alone or the tag, one space and the directives, with no whitespace behind
/// them, and each body ends with a newline before the closing fence.
pub open spec fn canonical(content: Seq<char>) -> bool
    decreases content.len(),
{
    match scan(content) {
        None => content.len() == 0 || content == newline(),
        Some(found) => {
            proof {
                lemma_scan_parts(content);
            }
            &&& found.header == written_header(found.header)
            &&& found.body.len() > 0
            &&& found.body.last() == '\n'
            &&& canonical(found.rest)
        },
    }
}

/// The first block written out before the others is all of them written out.
proof fn lemma_rendered_all_front<E>(block: BlockView<E>, more: Seq<BlockView<E>>)
    ensures
        rendered_all(seq![block] + more) == block.rendered() + rendered_all(more),
    decreases more.len(),
{
    let all = seq![block] + more;
    if more.len() == 0 {
        assert(all.drop_last() =~= Seq::<BlockView<E>>::empty());
        assert(rendered_all(all.drop_last()) =~= Seq::<char>::empty());
        assert(all.last() == block);
        assert(rendered_all(all) =~= block.rendered() + rendered_all(more));
    } else {
        assert(all.drop_last() =~= seq![block] + more.drop_last());
        assert(all.last() == more.last());
        lemma_rendered_all_front(block, more.drop_last());
        assert(rendered_all(all) =~= block.rendered() + rendered_all(more));
    }
}

/// A block that was read from a canonical region, and holds no result, is written out as
/// the region.
proof fn lemma_canonical_block_is_kept<E: Extension>(content: Seq<char>, force_draft: bool)
    requires
        scan(content) matches Some(found) && found.header == written_header(found.header)
            && found.body.len() > 0 && found.body.last() == '\n',
        parse_block_spec::<E>(content) is Ok,
    ensures
        parse_block_spec::<E>(content) matches Ok(Some((rest, block))) && block.refreshed(
            force_draft,
        ).rendered() + rest == content,
{
    reveal(parse_block_spec);
    let found = scan(content)->Some_0;
    lemma_scan_parts(content);
    let block = parse_block_spec::<E>(content)->Ok_0->Some_0.1.refreshed(force_draft);
    assert(block.header() == found.header);
    assert(found.body =~= block.text + newline());
    assert(block.rendered() + found.rest =~= content);
}

/// The first block of a canonical text is written out as its first region, and the other
/// blocks are those of the canonical text behind it.
proof fn lemma_canonical_file_step<E: Extension>(content: Seq<char>, force_draft: bool)
    requires
        canonical(content),
        parse_blocks_spec::<E>(content, force_draft) is Ok,
        scan(content) is Some,
    ensures
        parse_block_spec::<E>(content) matches Ok(Some((rest, read))) && {
            &&& rest.len() < content.len()
            &&& canonical(rest)
            &&& read.refreshed(force_draft).rendered() + rest == content
            &&& parse_blocks_spec::<E>(rest, force_draft) matches Ok(more)
            &&& parse_blocks_spec::<E>(content, force_draft)->Ok_0 == seq![
                read.refreshed(force_draft),
            ] + more
        },
{
    reveal(parse_block_spec);
    lemma_scan_parts(content);
    lemma_canonical_block_is_kept::<E>(content, force_draft);
}

/// What is written behind the first block, and the newline at the end, stand behind the
/// first block as they stand alone.
proof fn lemma_behind_first(first: Seq<char>, others: Seq<char>, rest: Seq<char>)
    requires
        others + newline() == rest || others + newline() == rest + newline(),
    ensures
        (first + others) + newline() == first + rest || (first + others) + newline() == (first
            + rest) + newline(),
{
    assert((first + others) + newline() =~= first + (others + newline()));
    assert(first + (rest + newline()) =~= (first + rest) + newline());
}

/// Reading a canonical text and writing its blocks out again, with no result stored in
/// them, gives the text back, with a newline at its end if it had none.
pub proof fn lemma_canonical_file_is_kept<E: Extension>(content: Seq<char>, force_draft: bool)
    requires
        canonical(content),
        parse_blocks_spec::<E>(content, force_draft) is Ok,
    ensures
        ({
            let blocks = parse_blocks_spec::<E>(content, force_draft)->Ok_0;
            rewritten(blocks) == content || rewritten(blocks) == content + newline()
        }),
    decreases content.len(),
{
    let blocks = parse_blocks_spec::<E>(content, force_draft)->Ok_0;
    if scan(content) is None {
        lemma_parse_block_shortens::<E>(content);
        assert(blocks =~= Seq::<BlockView<E>>::empty());
        assert(rewritten(blocks) =~= newline());
        if content.len() == 0 {
            assert(content + newline() =~= newline());
        }
    } else {
        lemma_canonical_file_step::<E>(content, force_draft);
        let (rest, read) = parse_block_spec::<E>(content)->Ok_0->Some_0;
        let block = read.refreshed(force_draft);
        let more = parse_blocks_spec::<E>(rest, force_draft)->Ok_0;
        lemma_canonical_file_is_kept::<E>(rest, force_draft);
        lemma_rendered_all_front(block, more);
        lemma_behind_first(block.rendered(), rendered_all(more), rest);
    }
}

} // verus!
