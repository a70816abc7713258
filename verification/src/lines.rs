//! Counting the lines of a file's content.
//!
//! A line is a maximal run of bytes that ends with a line feed; a run
//! that reaches the end of the content without one counts as a line, too.
//! So content has one line for each line feed, and one more where bytes
//! follow the last line feed.

use vstd::prelude::*;

verus! {

/// The line feed, which terminates a line.
pub const LINE_FEED: u8 = 10;

/// The number of line feeds in `content`.
pub open spec fn newline_count(content: Seq<u8>) -> nat
    decreases content.len(),
{
    if content.len() == 0 {
        0
    } else {
        newline_count(content.drop_last()) + if content.last() == LINE_FEED {
            1nat
        } else {
            0nat
        }
    }
}

/// Whether `content` ends in a run of bytes that no line feed terminates.
pub open spec fn has_open_line(content: Seq<u8>) -> bool {
    content.len() > 0 && content.last() != LINE_FEED
}

/// The number of lines in `content`: one for each line feed, and one more
/// for an unterminated run at the end.
pub open spec fn line_count(content: Seq<u8>) -> nat {
    newline_count(content) + if has_open_line(content) {
        1nat
    } else {
        0nat
    }
}

/// Whether `run` is a line: it is not empty, and it holds no line feed
/// before its last byte.
pub open spec fn is_line(run: Seq<u8>) -> bool {
    run.len() > 0 && forall|i: int| 0 <= i < run.len() - 1 ==> run[i] != LINE_FEED
}

/// The runs of `runs` joined, from the first to the last.
pub open spec fn joined(runs: Seq<Seq<u8>>) -> Seq<u8>
    decreases runs.len(),
{
    if runs.len() == 0 {
        Seq::empty()
    } else {
        joined(runs.drop_last()) + runs.last()
    }
}

/// Whether `runs` are the lines of `content`: joined they are the content,
/// each is a line, and each but the last ends with a line feed.
pub open spec fn are_lines_of(runs: Seq<Seq<u8>>, content: Seq<u8>) -> bool {
    &&& joined(runs) == content
    &&& forall|k: int| 0 <= k < runs.len() ==> is_line(#[trigger] runs[k])
    &&& forall|k: int| 0 <= k < runs.len() - 1 ==> (#[trigger] runs[k]).last() == LINE_FEED
}

/// The lines of `content`, from the first to the last: each byte goes on
/// with the line before it, or starts a line where that line has ended.
pub open spec fn lines_of(content: Seq<u8>) -> Seq<Seq<u8>>
    decreases content.len(),
{
    if content.len() == 0 {
        Seq::empty()
    } else {
        let before = lines_of(content.drop_last());
        if before.len() > 0 && before.last().last() != LINE_FEED {
            before.drop_last().push(before.last().push(content.last()))
        } else {
            before.push(seq![content.last()])
        }
    }
}

/// There are no more line feeds than bytes.
proof fn lemma_newline_count_bound(content: Seq<u8>)
    ensures
        newline_count(content) <= content.len(),
    decreases content.len(),
{
    if content.len() > 0 {
        lemma_newline_count_bound(content.drop_last());
    }
}

/// Content without line feed has a line feed count of zero.
proof fn lemma_no_line_feed(content: Seq<u8>)
    requires
        forall|i: int| 0 <= i < content.len() ==> content[i] != LINE_FEED,
    ensures
        newline_count(content) == 0,
    decreases content.len(),
{
    if content.len() > 0 {
        lemma_no_line_feed(content.drop_last());
    }
}

/// There are no more lines than bytes.
pub proof fn lemma_line_count_bound(content: Seq<u8>)
    ensures
        line_count(content) <= content.len(),
{
    lemma_newline_count_bound(content);
    if has_open_line(content) {
        lemma_newline_count_bound(content.drop_last());
    }
}

/// The line feeds of two pieces of content add up when the pieces are
/// joined.
pub proof fn lemma_newline_count_joined(front: Seq<u8>, back: Seq<u8>)
    ensures
        newline_count(front + back) == newline_count(front) + newline_count(back),
    decreases back.len(),
{
    if back.len() == 0 {
        assert(front + back =~= front);
    } else {
        lemma_newline_count_joined(front, back.drop_last());
        assert((front + back).drop_last() =~= front + back.drop_last());
    }
}

/// Content that splits into lines has as many lines as the split has
/// parts.
pub proof fn lemma_line_count_is_number_of_lines(runs: Seq<Seq<u8>>, content: Seq<u8>)
    requires
        are_lines_of(runs, content),
    ensures
        line_count(content) == runs.len(),
    decreases runs.len(),
{
    if runs.len() > 0 {
        let front = runs.drop_last();
        let last = runs.last();
        assert(is_line(runs[runs.len() - 1]));
        assert forall|k: int| 0 <= k < front.len() implies is_line(#[trigger] front[k]) by {
            assert(front[k] == runs[k]);
        }
        assert forall|k: int| 0 <= k < front.len() - 1 implies (#[trigger] front[k]).last()
            == LINE_FEED by {
            assert(front[k] == runs[k]);
        }
        lemma_line_count_is_number_of_lines(front, joined(front));
        if front.len() > 0 {
            assert(front[front.len() - 1] == runs[front.len() - 1]);
            assert(is_line(front[front.len() - 1]));
            assert(joined(front).last() == front.last().last());
        }
        lemma_newline_count_joined(joined(front), last);
        lemma_no_line_feed(last.drop_last());
        assert(content.last() == last.last());
    }
}

/// `lines_of` splits content into its lines.
pub proof fn lemma_lines_of(content: Seq<u8>)
    ensures
        are_lines_of(lines_of(content), content),
    decreases content.len(),
{
    if content.len() == 0 {
        assert(content =~= Seq::<u8>::empty());
    } else {
        let shorter = content.drop_last();
        let before = lines_of(shorter);
        let runs = lines_of(content);
        lemma_lines_of(shorter);
        assert(content =~= shorter.push(content.last()));
        if before.len() > 0 && before.last().last() != LINE_FEED {
            assert(is_line(before[before.len() - 1]));
            assert(runs.drop_last() =~= before.drop_last());
        } else {
            assert(runs.drop_last() =~= before);
        }
        assert(joined(runs) =~= joined(before).push(content.last()));
        assert forall|k: int| 0 <= k < runs.len() implies is_line(#[trigger] runs[k]) by {
            if k < runs.len() - 1 {
                assert(runs[k] == before[k]);
            }
        }
        assert forall|k: int| 0 <= k < runs.len() - 1 implies (#[trigger] runs[k]).last()
            == LINE_FEED by {
            assert(runs[k] == before[k]);
        }
    }
}

/// The line count of content is the number of its lines.
pub proof fn lemma_line_count_counts_lines(content: Seq<u8>)
    ensures
        line_count(content) == lines_of(content).len(),
{
    lemma_lines_of(content);
    lemma_line_count_is_number_of_lines(lines_of(content), content);
}

/// A final line feed adds no line to content that ends in an open line:
/// with it or without it, the last run of bytes is one line.
pub proof fn lemma_final_line_feed_adds_no_line(content: Seq<u8>)
    requires
        has_open_line(content),
    ensures
        line_count(content.push(LINE_FEED)) == line_count(content),
{
    assert(content.push(LINE_FEED).drop_last() =~= content);
}

/// Counts the lines of `content`.
pub fn count_lines(content: &[u8]) -> (count: usize)
    ensures
        count == line_count(content@),
{
    let mut newlines: usize = 0;
    let mut i: usize = 0;
    while i < content.len()
        invariant
            i <= content.len(),
            newlines == newline_count(content@.take(i as int)),
            newlines <= i,
        decreases content.len() - i,
    {
        proof {
            assert(content@.take(i + 1).drop_last() =~= content@.take(i as int));
        }
        if content[i] == LINE_FEED {
            newlines = newlines + 1;
        }
        i = i + 1;
    }
    proof {
        assert(content@.take(i as int) =~= content@);
        lemma_line_count_bound(content@);
    }
    if content.len() > 0 && content[content.len() - 1] != LINE_FEED {
        newlines + 1
    } else {
        newlines
    }
}

} // verus!
