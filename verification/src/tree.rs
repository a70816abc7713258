//! A directory tree and its tally.
//!
//! The tree holds what a walk of the file system found: for each file its
//! name and, where it could be read, its bytes; for each directory, where
//! it could be listed, its entries. A file adds its lines to the count of
//! its extension; a file without extension adds nothing, and neither does
//! anything that is no file and no directory. What could not be read
//! counts as empty.

use crate::counts::{
    count_of, lemma_merged_all_remove, lemma_merged_empty, lemma_recorded_is_merged,
    lemma_total_merged, lemma_total_recorded, merged, merged_all, total_of,
};
use crate::extension::{extension_of, file_extension, lemma_extension_needs_dot, DOT};
use crate::lines::{count_lines, line_count};
use crate::tally::ExtensionTally;
use vstd::prelude::*;

verus! {

/// An entry of a directory, or the root of a walk.
#[derive(Debug, PartialEq, Eq)]
pub enum Entry {
    /// A regular file: its name and its bytes, or `None` where it could
    /// not be read.
    File { name: String, content: Option<Vec<u8>> },
    /// A directory: its entries, or `None` where it could not be listed.
    Directory { entries: Option<Vec<Entry>> },
    /// Anything else.
    Other,
}

/// The number of lines that a file's content counts for: none where the
/// file could not be read.
pub open spec fn content_lines(content: Option<Vec<u8>>) -> nat {
    match content {
        Some(bytes) => line_count(bytes@),
        None => 0,
    }
}

/// What `entry` adds to the tally of the directory that holds it.
pub open spec fn entry_tally(entry: Entry) -> Map<Seq<char>, nat>
    decreases entry,
{
    match entry {
        Entry::File { name, content } => match extension_of(name@) {
            Some(extension) => Map::<Seq<char>, nat>::empty().insert(
                extension,
                content_lines(content),
            ),
            None => Map::empty(),
        },
        Entry::Directory { entries: Some(entries) } => listing_tally(entries@),
        _ => Map::empty(),
    }
}

/// The tally of a directory with the entries `entries`: what each of them
/// adds, merged.
pub open spec fn listing_tally(entries: Seq<Entry>) -> Map<Seq<char>, nat>
    decreases entries,
{
    if entries.len() == 0 {
        Map::empty()
    } else {
        merged(listing_tally(entries.drop_last()), entry_tally(entries.last()))
    }
}

/// The tally of the tree under `root`. A root that is no directory has the
/// empty tally.
pub open spec fn tree_tally(root: Entry) -> Map<Seq<char>, nat> {
    match root {
        Entry::Directory { .. } => entry_tally(root),
        _ => Map::empty(),
    }
}

/// The number of lines that `entry` adds to the total of the directory
/// that holds it: those of a file with an extension, and those that the
/// entries of a directory add.
pub open spec fn entry_lines(entry: Entry) -> nat
    decreases entry,
{
    match entry {
        Entry::File { name, content } => if extension_of(name@) is Some {
            content_lines(content)
        } else {
            0
        },
        Entry::Directory { entries: Some(entries) } => listing_lines(entries@),
        _ => 0,
    }
}

/// The number of lines that the entries `entries` add together.
pub open spec fn listing_lines(entries: Seq<Entry>) -> nat
    decreases entries,
{
    if entries.len() == 0 {
        0
    } else {
        listing_lines(entries.drop_last()) + entry_lines(entries.last())
    }
}

/// The number of lines in the files with an extension of the tree under
/// `root`.
pub open spec fn tree_lines(root: Entry) -> nat {
    match root {
        Entry::Directory { .. } => entry_lines(root),
        _ => 0,
    }
}

/// What an entry adds to a tally is finite, and its counts sum to the
/// lines that the entry adds.
pub proof fn lemma_entry_total(entry: Entry)
    ensures
        entry_tally(entry).dom().finite(),
        total_of(entry_tally(entry)) == entry_lines(entry),
    decreases entry,
{
    match entry {
        Entry::File { name, content } => {
            if extension_of(name@) is Some {
                lemma_total_recorded(Map::empty(), extension_of(name@)->0, content_lines(content));
            }
        },
        Entry::Directory { entries: Some(entries) } => {
            lemma_listing_total(entries@);
        },
        _ => {},
    }
}

/// The tally of a listing is finite, and its counts sum to the lines that
/// the entries add.
pub proof fn lemma_listing_total(entries: Seq<Entry>)
    ensures
        listing_tally(entries).dom().finite(),
        total_of(listing_tally(entries)) == listing_lines(entries),
    decreases entries,
{
    if entries.len() > 0 {
        lemma_listing_total(entries.drop_last());
        lemma_entry_total(entries.last());
        lemma_total_merged(listing_tally(entries.drop_last()), entry_tally(entries.last()));
    }
}

/// The total of a tree's tally is the number of lines in the tree's files
/// with an extension.
pub proof fn lemma_tree_total(root: Entry)
    ensures
        tree_tally(root).dom().finite(),
        total_of(tree_tally(root)) == tree_lines(root),
{
    lemma_entry_total(root);
}

/// The first entries of a listing add no more lines than all of them.
pub proof fn lemma_listing_lines_grow(entries: Seq<Entry>, k: int)
    requires
        0 <= k <= entries.len(),
    ensures
        listing_lines(entries.take(k)) <= listing_lines(entries),
    decreases entries.len() - k,
{
    if k == entries.len() {
        assert(entries.take(k) =~= entries);
    } else {
        assert(entries.take(k + 1).drop_last() =~= entries.take(k));
        lemma_listing_lines_grow(entries, k + 1);
    }
}

/// The number of lines that the files with the extension `extension` add,
/// in `entry` and below it.
pub open spec fn entry_lines_with(entry: Entry, extension: Seq<char>) -> nat
    decreases entry,
{
    match entry {
        Entry::File { name, content } => if extension_of(name@) == Some(extension) {
            content_lines(content)
        } else {
            0
        },
        Entry::Directory { entries: Some(entries) } => listing_lines_with(entries@, extension),
        _ => 0,
    }
}

/// The number of lines that the files with the extension `extension` add,
/// in all of `entries` and below them.
pub open spec fn listing_lines_with(entries: Seq<Entry>, extension: Seq<char>) -> nat
    decreases entries,
{
    if entries.len() == 0 {
        0
    } else {
        listing_lines_with(entries.drop_last(), extension) + entry_lines_with(
            entries.last(),
            extension,
        )
    }
}

/// Whether a file in `entry` or below it has the extension `extension`.
pub open spec fn entry_has(entry: Entry, extension: Seq<char>) -> bool
    decreases entry,
{
    match entry {
        Entry::File { name, content } => extension_of(name@) == Some(extension),
        Entry::Directory { entries: Some(entries) } => listing_has(entries@, extension),
        _ => false,
    }
}

/// Whether a file in one of `entries` or below it has the extension
/// `extension`.
pub open spec fn listing_has(entries: Seq<Entry>, extension: Seq<char>) -> bool
    decreases entries,
{
    entries.len() > 0 && (listing_has(entries.drop_last(), extension) || entry_has(
        entries.last(),
        extension,
    ))
}

/// What an entry adds has a key for each extension of a file in it and
/// below it, and no other; the count of a key is the number of lines in
/// the files with that extension.
pub proof fn lemma_entry_counts(entry: Entry, extension: Seq<char>)
    ensures
        entry_tally(entry).dom().contains(extension) <==> entry_has(entry, extension),
        count_of(entry_tally(entry), extension) == entry_lines_with(entry, extension),
    decreases entry,
{
    match entry {
        Entry::Directory { entries: Some(entries) } => {
            lemma_listing_counts(entries@, extension);
        },
        _ => {},
    }
}

/// The tally of a listing has a key for each extension of a file in the
/// entries and below them, and no other; the count of a key is the number
/// of lines in the files with that extension.
pub proof fn lemma_listing_counts(entries: Seq<Entry>, extension: Seq<char>)
    ensures
        listing_tally(entries).dom().contains(extension) <==> listing_has(entries, extension),
        count_of(listing_tally(entries), extension) == listing_lines_with(entries, extension),
    decreases entries,
{
    if entries.len() > 0 {
        lemma_listing_counts(entries.drop_last(), extension);
        lemma_entry_counts(entries.last(), extension);
    }
}

/// What each of `entries` adds to a tally, entry by entry.
pub open spec fn entry_tallies(entries: Seq<Entry>) -> Seq<Map<Seq<char>, nat>> {
    Seq::new(entries.len(), |i: int| entry_tally(entries[i]))
}

/// The tally of a listing is the merge of what each entry adds on its own.
pub proof fn lemma_listing_merges_entries(entries: Seq<Entry>)
    ensures
        listing_tally(entries) == merged_all(entry_tallies(entries)),
    decreases entries.len(),
{
    if entries.len() > 0 {
        lemma_listing_merges_entries(entries.drop_last());
        assert(entry_tallies(entries).drop_last() =~= entry_tallies(entries.drop_last()));
    }
}

/// The tally of a listing does not depend on the order of its entries:
/// two listings that hold the same entries, each as often as the other,
/// have the same tally.
pub proof fn lemma_listing_any_order(entries: Seq<Entry>, shuffled: Seq<Entry>)
    requires
        entries.to_multiset() == shuffled.to_multiset(),
    ensures
        listing_tally(entries) == listing_tally(shuffled),
    decreases entries.len(),
{
    entries.to_multiset_ensures();
    shuffled.to_multiset_ensures();
    if entries.len() > 0 {
        let last = entries.last();
        assert(entries[entries.len() - 1] == last);
        assert(entries.contains(last));
        assert(entries.to_multiset().count(last) > 0);
        assert(shuffled.to_multiset().count(last) > 0);
        assert(shuffled.contains(last));
        let at = choose|i: int| 0 <= i < shuffled.len() && shuffled[i] == last;
        assert(entries.remove(entries.len() - 1) =~= entries.drop_last());
        assert(entries.drop_last().to_multiset() =~= shuffled.remove(at).to_multiset());
        lemma_listing_any_order(entries.drop_last(), shuffled.remove(at));
        lemma_listing_merges_entries(shuffled);
        lemma_listing_merges_entries(shuffled.remove(at));
        lemma_merged_all_remove(entry_tallies(shuffled), at);
        assert(entry_tallies(shuffled).remove(at) =~= entry_tallies(shuffled.remove(at)));
    }
}

/// An entry put anywhere into a listing adds its own tally and its own
/// lines to those of the listing.
pub proof fn lemma_listing_insert(entries: Seq<Entry>, at: int, entry: Entry)
    requires
        0 <= at <= entries.len(),
    ensures
        listing_tally(entries.insert(at, entry)) == merged(
            listing_tally(entries),
            entry_tally(entry),
        ),
        listing_lines(entries.insert(at, entry)) == listing_lines(entries) + entry_lines(entry),
{
    let wider = entries.insert(at, entry);
    assert(wider.remove(at) =~= entries);
    lemma_listing_merges_entries(wider);
    lemma_listing_merges_entries(entries);
    lemma_merged_all_remove(entry_tallies(wider), at);
    assert(entry_tallies(wider).remove(at) =~= entry_tallies(entries));
    lemma_listing_total(wider);
    lemma_listing_total(entries);
    lemma_entry_total(entry);
    lemma_total_merged(listing_tally(entries), entry_tally(entry));
}

/// A file without extension adds nothing to a listing: no key, no count
/// and no lines, whatever it holds.
pub proof fn lemma_file_without_extension_adds_nothing(
    entries: Seq<Entry>,
    at: int,
    name: String,
    content: Option<Vec<u8>>,
)
    requires
        0 <= at <= entries.len(),
        !name@.contains(DOT),
    ensures
        listing_tally(entries.insert(at, Entry::File { name, content })) == listing_tally(entries),
        listing_lines(entries.insert(at, Entry::File { name, content })) == listing_lines(entries),
{
    lemma_extension_needs_dot(name@);
    lemma_listing_insert(entries, at, Entry::File { name, content });
    lemma_merged_empty(listing_tally(entries));
}

/// A file that could not be read adds no lines to a listing: every count
/// is what it is without the file, and so is the number of lines.
pub proof fn lemma_unreadable_file_adds_no_lines(entries: Seq<Entry>, at: int, name: String)
    requires
        0 <= at <= entries.len(),
    ensures
        forall|extension: Seq<char>|
            count_of(
                listing_tally(entries.insert(at, Entry::File { name, content: None })),
                extension,
            ) == count_of(listing_tally(entries), extension),
        listing_lines(entries.insert(at, Entry::File { name, content: None })) == listing_lines(
            entries,
        ),
{
    lemma_listing_insert(entries, at, Entry::File { name, content: None });
}

/// The lines of a file's content: none where the file could not be read.
pub fn lines_of_content(content: &Option<Vec<u8>>) -> (lines: usize)
    ensures
        lines == content_lines(*content),
{
    match content {
        Some(bytes) => count_lines(bytes.as_slice()),
        None => 0,
    }
}

/// Adds up the lines that the entries of a directory add, as far as the
/// sum fits.
fn listing_line_total(entries: &Vec<Entry>) -> (total: Option<usize>)
    ensures
        match total {
            Some(lines) => lines == listing_lines(entries@),
            None => listing_lines(entries@) > usize::MAX,
        },
    decreases entries,
{
    let mut total: usize = 0;
    let mut i: usize = 0;
    proof {
        assert(entries@.take(0) =~= Seq::<Entry>::empty());
    }
    while i < entries.len()
        invariant
            i <= entries@.len(),
            total == listing_lines(entries@.take(i as int)),
        decreases entries@.len() - i,
    {
        proof {
            let next = entries@.take(i + 1);
            assert(next.drop_last() =~= entries@.take(i as int));
            assert(next.last() == entries@[i as int]);
            assert(listing_lines(next) == listing_lines(next.drop_last()) + entry_lines(
                next.last(),
            ));
            lemma_listing_lines_grow(entries@, i + 1);
        }
        let added = match &entries[i] {
            Entry::File { name, content } => match file_extension(name.as_str()) {
                Some(_) => Some(lines_of_content(content)),
                None => Some(0),
            },
            Entry::Directory { entries: Some(inner) } => listing_line_total(inner),
            _ => Some(0),
        };
        let sum = match added {
            Some(lines) => total.checked_add(lines),
            None => None,
        };
        match sum {
            Some(lines) => {
                total = lines;
            },
            None => {
                return None;
            },
        }
        i = i + 1;
    }
    proof {
        assert(entries@.take(i as int) =~= entries@);
    }
    Some(total)
}

/// The number of lines in the files with an extension of the tree under
/// `root`, or `None` where it is too large for a `usize`.
pub fn line_total(root: &Entry) -> (total: Option<usize>)
    ensures
        match total {
            Some(lines) => lines == tree_lines(*root),
            None => tree_lines(*root) > usize::MAX,
        },
{
    match root {
        Entry::Directory { entries: Some(entries) } => listing_line_total(entries),
        _ => Some(0),
    }
}

/// Tallies the entries of a directory.
fn scan_listing(entries: &Vec<Entry>) -> (tally: ExtensionTally)
    requires
        listing_lines(entries@) <= usize::MAX,
    ensures
        tally@ == listing_tally(entries@),
    decreases entries,
{
    let mut tally = ExtensionTally::new();
    let mut i: usize = 0;
    proof {
        assert(entries@.take(0) =~= Seq::<Entry>::empty());
    }
    while i < entries.len()
        invariant
            i <= entries@.len(),
            listing_lines(entries@) <= usize::MAX,
            tally@ == listing_tally(entries@.take(i as int)),
        decreases entries@.len() - i,
    {
        proof {
            let next = entries@.take(i + 1);
            assert(next.drop_last() =~= entries@.take(i as int));
            assert(next.last() == entries@[i as int]);
            assert(listing_lines(next) == listing_lines(next.drop_last()) + entry_lines(
                next.last(),
            ));
            assert(listing_tally(next) == merged(
                listing_tally(next.drop_last()),
                entry_tally(next.last()),
            ));
            lemma_listing_total(entries@.take(i as int));
            lemma_listing_lines_grow(entries@, i + 1);
            lemma_merged_empty(tally@);
        }
        match &entries[i] {
            Entry::File { name, content } => {
                match file_extension(name.as_str()) {
                    Some(extension) => {
                        let lines = lines_of_content(content);
                        proof {
                            lemma_recorded_is_merged(tally@, extension@, lines as nat);
                        }
                        tally.record(extension.as_str(), lines);
                    },
                    None => {},
                }
            },
            Entry::Directory { entries: Some(inner) } => {
                let part = scan_listing(inner);
                proof {
                    lemma_listing_total(inner@);
                }
                tally.merge(&part);
            },
            _ => {},
        }
        i = i + 1;
    }
    proof {
        assert(entries@.take(i as int) =~= entries@);
    }
    tally
}

/// Tallies the tree under `root`: for each extension the lines of all
/// files with that extension, in the root directory and below it.
pub fn scan(root: &Entry) -> (tally: ExtensionTally)
    requires
        tree_lines(*root) <= usize::MAX,
    ensures
        tally@ == tree_tally(*root),
{
    match root {
        Entry::Directory { entries: Some(entries) } => scan_listing(entries),
        _ => ExtensionTally::new(),
    }
}

/// Tallies the tree under `root` like [`scan`], where the lines of its
/// files fit a `usize`; else `None`.
pub fn checked_scan(root: &Entry) -> (tally: Option<ExtensionTally>)
    ensures
        match tally {
            Some(tally) => tree_lines(*root) <= usize::MAX && tally@ == tree_tally(*root),
            None => tree_lines(*root) > usize::MAX,
        },
{
    match line_total(root) {
        Some(_) => Some(scan(root)),
        None => None,
    }
}

} // verus!
