//! Tallying a tree with the entries of each directory handled in
//! parallel.
//!
//! Every entry of a directory gets a tally of its own, made on whichever
//! worker thread takes the entry; the thread that asked for them then
//! merges these tallies. No tally is shared while it is written, and since
//! merging does not depend on order, the result is that of the sequential
//! scan. The work runs on rayon's pool, which keeps the number of threads
//! to what the machine offers however wide or deep the tree is.

use crate::extension::file_extension;
use crate::tally::{merge_all, views_of, ExtensionTally};
use crate::tree::{
    entry_lines, entry_tallies, entry_tally, lemma_listing_lines_grow, lemma_listing_merges_entries,
    lemma_listing_total, lines_of_content, listing_lines, listing_tally, tree_lines, tree_tally,
    Entry,
};
use rayon::iter::{IntoParallelRefIterator, ParallelIterator};
use vstd::prelude::*;

verus! {

/// Each entry of a listing adds no more lines than the whole listing.
pub proof fn lemma_entry_lines_within_listing(entries: Seq<Entry>, i: int)
    requires
        0 <= i < entries.len(),
    ensures
        entry_lines(entries[i]) <= listing_lines(entries),
{
    let next = entries.take(i + 1);
    assert(next.last() == entries[i]);
    assert(listing_lines(next) == listing_lines(next.drop_last()) + entry_lines(next.last()));
    lemma_listing_lines_grow(entries, i + 1);
}

/// Tallies what one entry adds to the directory that holds it.
fn tally_entry(entry: &Entry) -> (tally: ExtensionTally)
    requires
        entry_lines(*entry) <= usize::MAX,
    ensures
        tally@ == entry_tally(*entry),
{
    match entry {
        Entry::File { name, content } => {
            let mut tally = ExtensionTally::new();
            match file_extension(name.as_str()) {
                Some(extension) => {
                    tally.record(extension.as_str(), lines_of_content(content));
                },
                None => {},
            }
            tally
        },
        Entry::Directory { entries: Some(inner) } => scan_listing_parallel(inner),
        _ => ExtensionTally::new(),
    }
}

/// Makes the tally of each entry of `entries`, in parallel.
///
/// Trusted. The body hands the entries to rayon's `par_iter`, `map` and
/// `collect`, with [`tally_entry`] as the function to apply. The contract
/// claims of rayon that collecting into a `Vec` gives one result for each
/// item, in the order of the items, and that each result is what the
/// applied function returned for that item.
#[verifier::external_body]
fn tally_each(entries: &Vec<Entry>) -> (parts: Vec<ExtensionTally>)
    requires
        forall|i: int| 0 <= i < entries@.len() ==> entry_lines(#[trigger] entries@[i]) <= usize::MAX,
    ensures
        parts@.len() == entries@.len(),
        forall|i: int| 0 <= i < parts@.len() ==> (#[trigger] parts@[i])@ == entry_tally(entries@[i]),
{
    entries.par_iter().map(|entry| tally_entry(entry)).collect()
}

/// Tallies the entries of a directory, each on its own, and merges the
/// results.
fn scan_listing_parallel(entries: &Vec<Entry>) -> (tally: ExtensionTally)
    requires
        listing_lines(entries@) <= usize::MAX,
    ensures
        tally@ == listing_tally(entries@),
{
    proof {
        assert forall|i: int| 0 <= i < entries@.len() implies entry_lines(#[trigger] entries@[i])
            <= usize::MAX by {
            lemma_entry_lines_within_listing(entries@, i);
        }
    }
    let parts = tally_each(entries);
    proof {
        assert(views_of(parts@) =~= entry_tallies(entries@));
        lemma_listing_merges_entries(entries@);
        lemma_listing_total(entries@);
    }
    merge_all(&parts)
}

/// Tallies the tree under `root` as [`crate::tree::scan`] does, with the
/// entries of each directory handled in parallel.
pub fn scan_parallel(root: &Entry) -> (tally: ExtensionTally)
    requires
        tree_lines(*root) <= usize::MAX,
    ensures
        tally@ == tree_tally(*root),
{
    match root {
        Entry::Directory { entries: Some(entries) } => scan_listing_parallel(entries),
        _ => ExtensionTally::new(),
    }
}

} // verus!
