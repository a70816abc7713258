//! The tally: for each file extension the number of lines counted so far.
//!
//! A tally is a finite map from extensions to counts. It keeps one row for
//! each extension, in ascending order of the extensions, and the sum of
//! all counts.

use crate::counts::{
    lemma_count_within_total, lemma_merged_all_finite, lemma_merged_all_total_grows,
    lemma_total_merged, lemma_total_recorded, lemma_total_split, merged, merged_all, recorded,
    total_of,
};
use crate::order::{
    ascending, lemma_precedes_asymmetric, lemma_precedes_irreflexive, lemma_precedes_total,
    lemma_precedes_transitive, place_of, precedes, Place,
};
use vstd::prelude::*;
use vstd::string::*;

verus! {

/// Whether the rows of `names` and `counts` list `tally`: each key once
/// with its count, in ascending order of the keys. A tally has one such
/// listing.
pub open spec fn lists(names: Seq<Seq<char>>, counts: Seq<nat>, tally: Map<Seq<char>, nat>) -> bool {
    &&& names.len() == counts.len()
    &&& ascending(names)
    &&& forall|e: Seq<char>| tally.dom().contains(e) <==> names.contains(e)
    &&& forall|i: int| 0 <= i < names.len() ==> tally[#[trigger] names[i]] == counts[i]
}

/// The sum of `counts`.
pub open spec fn sum_of(counts: Seq<nat>) -> nat
    decreases counts.len(),
{
    if counts.len() == 0 {
        0
    } else {
        sum_of(counts.drop_last()) + counts.last()
    }
}

/// The rows of a listing but the last list the tally without the last
/// row's key, and no other row has that key.
proof fn lemma_lists_front(names: Seq<Seq<char>>, counts: Seq<nat>, tally: Map<Seq<char>, nat>)
    requires
        lists(names, counts, tally),
        names.len() > 0,
    ensures
        lists(names.drop_last(), counts.drop_last(), tally.remove(names.last())),
        tally.dom().contains(names.last()),
        tally[names.last()] == counts.last(),
        !names.drop_last().contains(names.last()),
{
    let front = names.drop_last();
    let last = names.last();
    assert(names[names.len() - 1] == last);
    assert(names.contains(last));
    lemma_precedes_irreflexive(last);
    if front.contains(last) {
        let j = front.index_of(last);
        assert(names[j] == last);
    }
    assert forall|e: Seq<char>| tally.remove(last).dom().contains(e) <==> front.contains(e) by {
        if front.contains(e) {
            let j = front.index_of(e);
            assert(names[j] == e);
            assert(names.contains(e));
        }
        if tally.remove(last).dom().contains(e) {
            assert(names.contains(e));
            let j = names.index_of(e);
            assert(front[j] == e);
        }
    }
    assert forall|i: int| 0 <= i < front.len() implies tally.remove(last)[#[trigger] front[i]]
        == counts.drop_last()[i] by {
        assert(front[i] == names[i]);
        assert(front.contains(front[i]));
    }
    assert(ascending(front)) by {
        assert forall|a: int, b: int| 0 <= a < b < front.len() implies precedes(
            front[a],
            front[b],
        ) by {
            assert(front[a] == names[a] && front[b] == names[b]);
        }
    }
}

/// A tally has one listing: two listings of the same tally are the same
/// rows in the same order.
pub proof fn lemma_listing_unique(
    names: Seq<Seq<char>>,
    counts: Seq<nat>,
    other_names: Seq<Seq<char>>,
    other_counts: Seq<nat>,
    tally: Map<Seq<char>, nat>,
)
    requires
        lists(names, counts, tally),
        lists(other_names, other_counts, tally),
    ensures
        names == other_names,
        counts == other_counts,
    decreases names.len(),
{
    if names.len() == 0 {
        assert(other_names.len() == 0) by {
            if other_names.len() > 0 {
                assert(other_names.contains(other_names[0]));
                assert(names.contains(other_names[0]));
            }
        }
        assert(names =~= other_names);
        assert(counts =~= other_counts);
    } else {
        let last = names.last();
        assert(names[names.len() - 1] == last);
        assert(names.contains(last));
        assert(other_names.contains(last));
        let other_last = other_names.last();
        assert(other_names[other_names.len() - 1] == other_last);
        assert(other_names.contains(other_last));
        assert(names.contains(other_last));
        if last != other_last {
            assert(precedes(other_names[other_names.index_of(last)], other_last));
            assert(precedes(names[names.index_of(other_last)], last));
            lemma_precedes_asymmetric(last, other_last);
        }
        lemma_lists_front(names, counts, tally);
        lemma_lists_front(other_names, other_counts, tally);
        lemma_listing_unique(
            names.drop_last(),
            counts.drop_last(),
            other_names.drop_last(),
            other_counts.drop_last(),
            tally.remove(last),
        );
        assert(names =~= names.drop_last().push(last));
        assert(other_names =~= other_names.drop_last().push(last));
        assert(counts =~= counts.drop_last().push(counts.last()));
        assert(other_counts =~= other_counts.drop_last().push(other_counts.last()));
    }
}

/// The total of a tally is the sum of the counts of its rows.
pub proof fn lemma_total_is_sum_of_rows(
    names: Seq<Seq<char>>,
    counts: Seq<nat>,
    tally: Map<Seq<char>, nat>,
)
    requires
        lists(names, counts, tally),
    ensures
        tally.dom().finite(),
        total_of(tally) == sum_of(counts),
    decreases names.len(),
{
    vstd::seq_lib::seq_to_set_is_finite(names);
    assert(tally.dom() =~= names.to_set());
    if names.len() == 0 {
        assert(tally.dom() =~= Set::<Seq<char>>::empty());
    } else {
        lemma_lists_front(names, counts, tally);
        lemma_total_is_sum_of_rows(names.drop_last(), counts.drop_last(), tally.remove(names.last()));
        lemma_total_split(tally, names.last());
    }
}

/// The map that the rows of `names` and `counts` stand for.
spec fn rows_map(names: Seq<Seq<char>>, counts: Seq<usize>) -> Map<Seq<char>, nat> {
    Map::new(|e: Seq<char>| names.contains(e), |e: Seq<char>| counts[names.index_of(e)] as nat)
}

/// In ascending names each name stands at one place only.
proof fn lemma_ascending_distinct(names: Seq<Seq<char>>, i: int, j: int)
    requires
        ascending(names),
        0 <= i < names.len(),
        0 <= j < names.len(),
        names[i] == names[j],
    ensures
        i == j,
{
    lemma_precedes_irreflexive(names[i]);
}

/// The rows' map holds for each name the count at the name's place.
proof fn lemma_rows_map_at(names: Seq<Seq<char>>, counts: Seq<usize>, i: int)
    requires
        ascending(names),
        0 <= i < names.len(),
    ensures
        names.contains(names[i]),
        names.index_of(names[i]) == i,
        rows_map(names, counts).dom().contains(names[i]),
        rows_map(names, counts)[names[i]] == counts[i],
{
    lemma_ascending_distinct(names, i, names.index_of(names[i]));
}

/// The rows' map is finite.
proof fn lemma_rows_map_finite(names: Seq<Seq<char>>, counts: Seq<usize>)
    ensures
        rows_map(names, counts).dom().finite(),
{
    vstd::seq_lib::seq_to_set_is_finite(names);
    assert(rows_map(names, counts).dom() =~= names.to_set());
}

/// A new count in one row is a new count for that row's name.
proof fn lemma_rows_map_update(names: Seq<Seq<char>>, counts: Seq<usize>, i: int, count: usize)
    requires
        ascending(names),
        names.len() == counts.len(),
        0 <= i < names.len(),
    ensures
        rows_map(names, counts.update(i, count)) == rows_map(names, counts).insert(
            names[i],
            count as nat,
        ),
{
    let before = rows_map(names, counts);
    let after = rows_map(names, counts.update(i, count));
    assert forall|e: Seq<char>| after.dom().contains(e) implies after[e] == before.insert(
        names[i],
        count as nat,
    )[e] by {
        lemma_rows_map_at(names, counts, names.index_of(e));
        lemma_rows_map_at(names, counts, i);
    }
    lemma_rows_map_at(names, counts, i);
    assert(after =~= before.insert(names[i], count as nat));
}

/// A new row for a name that the rows do not hold is a new key.
proof fn lemma_rows_map_insert(
    names: Seq<Seq<char>>,
    counts: Seq<usize>,
    i: int,
    name: Seq<char>,
    count: usize,
)
    requires
        ascending(names),
        ascending(names.insert(i, name)),
        names.len() == counts.len(),
        0 <= i <= names.len(),
    ensures
        !names.contains(name),
        rows_map(names.insert(i, name), counts.insert(i, count)) == rows_map(names, counts).insert(
            name,
            count as nat,
        ),
{
    let wider = names.insert(i, name);
    let before = rows_map(names, counts);
    let after = rows_map(wider, counts.insert(i, count));
    assert(wider[i] == name);
    if names.contains(name) {
        let j = names.index_of(name);
        let moved = if j < i {
            j
        } else {
            j + 1
        };
        assert(wider[moved] == name);
        lemma_ascending_distinct(wider, i, moved);
    }
    assert forall|e: Seq<char>| after.dom().contains(e) <==> before.insert(
        name,
        count as nat,
    ).dom().contains(e) by {
        if wider.contains(e) {
            let j = wider.index_of(e);
            if j < i {
                assert(names[j] == e);
            } else if j > i {
                assert(names[j - 1] == e);
            }
        }
        if names.contains(e) {
            let j = names.index_of(e);
            let moved = if j < i {
                j
            } else {
                j + 1
            };
            assert(wider[moved] == e);
        }
    }
    assert forall|e: Seq<char>| after.dom().contains(e) implies after[e] == before.insert(
        name,
        count as nat,
    )[e] by {
        let j = wider.index_of(e);
        lemma_rows_map_at(wider, counts.insert(i, count), j);
        if j < i {
            assert(names[j] == e);
            lemma_rows_map_at(names, counts, j);
        } else if j > i {
            assert(names[j - 1] == e);
            lemma_rows_map_at(names, counts, j - 1);
        }
    }
    assert(after =~= before.insert(name, count as nat));
}

/// A name that comes after the rows before a place, and before the row at
/// that place, may stand there.
proof fn lemma_ascending_insert(names: Seq<Seq<char>>, i: int, name: Seq<char>)
    requires
        ascending(names),
        0 <= i <= names.len(),
        forall|j: int| 0 <= j < i ==> precedes(#[trigger] names[j], name),
        i < names.len() ==> precedes(name, names[i]),
    ensures
        ascending(names.insert(i, name)),
        !names.contains(name),
{
    let wider = names.insert(i, name);
    lemma_precedes_irreflexive(name);
    if names.contains(name) {
        let j = names.index_of(name);
        if j > i {
            lemma_precedes_transitive(name, names[i], names[j]);
        }
    }
    assert forall|a: int, b: int| 0 <= a < b < wider.len() implies precedes(
        wider[a],
        wider[b],
    ) by {
        if b == i {
            assert(wider[a] == names[a]);
        } else if a == i {
            assert(wider[b] == names[b - 1]);
            if b - 1 > i {
                lemma_precedes_transitive(name, names[i], names[b - 1]);
            }
        } else if a < i && b > i {
            assert(wider[a] == names[a] && wider[b] == names[b - 1]);
        } else if a < i {
            assert(wider[a] == names[a] && wider[b] == names[b]);
        } else {
            assert(wider[a] == names[a - 1] && wider[b] == names[b - 1]);
        }
    }
}

/// The first rows' map grows by one key with each further row.
proof fn lemma_rows_map_next(names: Seq<Seq<char>>, counts: Seq<usize>, k: int)
    requires
        ascending(names),
        names.len() == counts.len(),
        0 <= k < names.len(),
    ensures
        !rows_map(names.take(k), counts.take(k)).dom().contains(names[k]),
        rows_map(names.take(k + 1), counts.take(k + 1)) == rows_map(
            names.take(k),
            counts.take(k),
        ).insert(names[k], counts[k] as nat),
{
    let front = names.take(k);
    assert(front.insert(k, names[k]) =~= names.take(k + 1));
    assert(counts.take(k).insert(k, counts[k]) =~= counts.take(k + 1));
    assert(ascending(front)) by {
        assert forall|a: int, b: int| 0 <= a < b < front.len() implies precedes(
            front[a],
            front[b],
        ) by {
            assert(front[a] == names[a] && front[b] == names[b]);
        }
    }
    assert forall|j: int| 0 <= j < k implies precedes(#[trigger] front[j], names[k]) by {
        assert(front[j] == names[j]);
    }
    lemma_ascending_insert(front, k, names[k]);
    lemma_rows_map_insert(front, counts.take(k), k, names[k], counts[k]);
}

/// The counts of the first rows sum to no more than those of all rows.
proof fn lemma_rows_total_grows(names: Seq<Seq<char>>, counts: Seq<usize>, k: int)
    requires
        ascending(names),
        names.len() == counts.len(),
        0 <= k <= names.len(),
    ensures
        total_of(rows_map(names.take(k), counts.take(k))) <= total_of(rows_map(names, counts)),
    decreases names.len() - k,
{
    if k == names.len() {
        assert(names.take(k) =~= names);
        assert(counts.take(k) =~= counts);
    } else {
        lemma_rows_map_next(names, counts, k);
        lemma_rows_map_finite(names.take(k), counts.take(k));
        lemma_total_recorded(
            rows_map(names.take(k), counts.take(k)),
            names[k],
            counts[k] as nat,
        );
        lemma_rows_total_grows(names, counts, k + 1);
    }
}

/// The extensions of the rows that `rows` holds.
pub open spec fn row_names(rows: Seq<(String, usize)>) -> Seq<Seq<char>> {
    Seq::new(rows.len(), |i: int| rows[i].0@)
}

/// The counts of the rows that `rows` holds.
pub open spec fn row_counts(rows: Seq<(String, usize)>) -> Seq<nat> {
    Seq::new(rows.len(), |i: int| rows[i].1 as nat)
}

/// The extensions that the strings of `extensions` hold.
spec fn names_of(extensions: Seq<String>) -> Seq<Seq<char>> {
    Seq::new(extensions.len(), |i: int| extensions[i]@)
}

/// Whether rows and total make up a tally: the rows are in ascending
/// order, one for each extension, and the total is the sum of their
/// counts.
spec fn rows_sound(extensions: Seq<String>, counts: Seq<usize>, total: usize) -> bool {
    &&& extensions.len() == counts.len()
    &&& ascending(names_of(extensions))
    &&& total == total_of(rows_map(names_of(extensions), counts))
}

/// For each extension, the number of lines counted for it.
#[derive(Debug, PartialEq, Eq)]
pub struct ExtensionTally {
    extensions: Vec<String>,
    counts: Vec<usize>,
    total: usize,
}

impl View for ExtensionTally {
    type V = Map<Seq<char>, nat>;

    /// The tally as a map from extensions to counts.
    closed spec fn view(&self) -> Map<Seq<char>, nat> {
        rows_map(names_of(self.extensions@), self.counts@)
    }
}

/// Looks for `extension` among the rows: the place of its row and `true`,
/// or the place where its row would stand and `false`.
fn find_row(extensions: &Vec<String>, extension: &str) -> (found: (usize, bool))
    requires
        ascending(names_of(extensions@)),
    ensures
        found.0 <= extensions@.len(),
        forall|j: int| 0 <= j < found.0 ==> precedes(#[trigger] names_of(extensions@)[j], extension@),
        found.1 ==> found.0 < extensions@.len() && names_of(extensions@)[found.0 as int]
            == extension@,
        !found.1 && found.0 < extensions@.len() ==> precedes(
            extension@,
            names_of(extensions@)[found.0 as int],
        ),
        found.1 == names_of(extensions@).contains(extension@),
{
    let ghost names = names_of(extensions@);
    let mut i: usize = 0;
    while i < extensions.len()
        invariant
            i <= extensions@.len(),
            names == names_of(extensions@),
            ascending(names),
            forall|j: int| 0 <= j < i ==> precedes(#[trigger] names[j], extension@),
        decreases extensions@.len() - i,
    {
        match place_of(extensions[i].as_str(), extension) {
            Place::Before => {
                i = i + 1;
            },
            Place::Same => {
                return (i, true);
            },
            Place::After => {
                proof {
                    lemma_precedes_total(names[i as int], extension@);
                    lemma_ascending_insert(names, i as int, extension@);
                }
                return (i, false);
            },
        }
    }
    proof {
        lemma_ascending_insert(names, i as int, extension@);
    }
    (i, false)
}

impl ExtensionTally {
    #[verifier::type_invariant]
    closed spec fn well_formed(&self) -> bool {
        rows_sound(self.extensions@, self.counts@, self.total)
    }

    /// A tally is finite.
    pub proof fn lemma_finite(&self)
        ensures
            self@.dom().finite(),
    {
        lemma_rows_map_finite(names_of(self.extensions@), self.counts@);
    }

    /// The empty tally.
    pub fn new() -> (tally: ExtensionTally)
        ensures
            tally@ == Map::<Seq<char>, nat>::empty(),
    {
        let extensions: Vec<String> = Vec::new();
        let counts: Vec<usize> = Vec::new();
        proof {
            assert(names_of(extensions@) =~= Seq::<Seq<char>>::empty());
            assert(rows_map(names_of(extensions@), counts@) =~= Map::<Seq<char>, nat>::empty());
        }
        ExtensionTally { extensions, counts, total: 0 }
    }

    /// Records `lines` more lines for `extension`. The extension has a row
    /// from then on, even where `lines` is zero.
    pub fn record(&mut self, extension: &str, lines: usize)
        requires
            total_of(old(self)@) + lines <= usize::MAX,
        ensures
            final(self)@ == recorded(old(self)@, extension@, lines as nat),
            total_of(final(self)@) == total_of(old(self)@) + lines,
    {
        proof {
            use_type_invariant(&*self);
            self.lemma_finite();
        }
        let ghost before = self@;
        let mut taken = ExtensionTally::new();
        std::mem::swap(self, &mut taken);
        let ExtensionTally { extensions, counts, total } = taken;
        let mut extensions = extensions;
        let mut counts = counts;
        let ghost names = names_of(extensions@);
        let ghost old_counts = counts@;
        assert(before == rows_map(names, old_counts));
        let (i, found) = find_row(&extensions, extension);
        proof {
            lemma_total_recorded(before, extension@, lines as nat);
        }
        if found {
            let count = counts[i];
            proof {
                lemma_rows_map_at(names, old_counts, i as int);
                lemma_count_within_total(before, extension@);
                lemma_rows_map_update(names, old_counts, i as int, (count + lines) as usize);
            }
            counts.set(i, count + lines);
        } else {
            proof {
                lemma_ascending_insert(names, i as int, extension@);
                lemma_rows_map_insert(names, old_counts, i as int, extension@, lines);
            }
            extensions.insert(i, extension.to_owned());
            counts.insert(i, lines);
            proof {
                assert(names_of(extensions@) =~= names.insert(i as int, extension@));
            }
        }
        *self = ExtensionTally { extensions, counts, total: total + lines };
    }

    /// Adds every count of `other` to the count that this tally holds for
    /// the same extension.
    pub fn merge(&mut self, other: &ExtensionTally)
        requires
            total_of(old(self)@) + total_of(other@) <= usize::MAX,
        ensures
            final(self)@ == merged(old(self)@, other@),
            total_of(final(self)@) == total_of(old(self)@) + total_of(other@),
    {
        proof {
            use_type_invariant(other);
            self.lemma_finite();
            other.lemma_finite();
            lemma_total_merged(self@, other@);
        }
        let ghost before = self@;
        let ghost names = names_of(other.extensions@);
        let ghost counts = other.counts@;
        proof {
            assert(rows_map(names.take(0), counts.take(0)) =~= Map::<Seq<char>, nat>::empty());
            assert(merged(before, Map::<Seq<char>, nat>::empty()) =~= before);
        }
        let mut k: usize = 0;
        while k < other.extensions.len()
            invariant
                k <= names.len(),
                names == names_of(other.extensions@),
                counts == other.counts@,
                rows_sound(other.extensions@, other.counts@, other.total),
                other@ == rows_map(names, counts),
                before.dom().finite(),
                total_of(before) + total_of(other@) <= usize::MAX,
                self@ == merged(before, rows_map(names.take(k as int), counts.take(k as int))),
            decreases names.len() - k,
        {
            let ghost seen = rows_map(names.take(k as int), counts.take(k as int));
            proof {
                lemma_rows_map_next(names, counts, k as int);
                lemma_rows_map_finite(names.take(k as int), counts.take(k as int));
                lemma_total_merged(before, seen);
                lemma_total_recorded(seen, names[k as int], counts[k as int] as nat);
                lemma_rows_total_grows(names, counts, k + 1);
                assert(merged(before, seen.insert(names[k as int], counts[k as int] as nat))
                    =~= recorded(merged(before, seen), names[k as int], counts[k as int] as nat));
            }
            self.record(other.extensions[k].as_str(), other.counts[k]);
            k = k + 1;
        }
        proof {
            assert(names.take(k as int) =~= names);
            assert(counts.take(k as int) =~= counts);
        }
    }

    /// The count for `extension`, or `None` where the tally has no row for
    /// it.
    pub fn get(&self, extension: &str) -> (count: Option<usize>)
        ensures
            match count {
                Some(n) => self@.dom().contains(extension@) && self@[extension@] == n,
                None => !self@.dom().contains(extension@),
            },
    {
        proof {
            use_type_invariant(self);
        }
        let (i, found) = find_row(&self.extensions, extension);
        if found {
            proof {
                lemma_rows_map_at(names_of(self.extensions@), self.counts@, i as int);
            }
            Some(self.counts[i])
        } else {
            None
        }
    }

    /// The number of extensions that the tally holds.
    pub fn len(&self) -> (len: usize)
        ensures
            len == self@.dom().len(),
    {
        proof {
            use_type_invariant(self);
            let names = names_of(self.extensions@);
            assert forall|i: int, j: int|
                0 <= i < names.len() && 0 <= j < names.len() && i != j implies names[i]
                != names[j] by {
                if names[i] == names[j] {
                    lemma_ascending_distinct(names, i, j);
                }
            }
            names.unique_seq_to_set();
            assert(self@.dom() =~= names.to_set());
        }
        self.extensions.len()
    }

    /// Whether the tally holds no extension.
    pub fn is_empty(&self) -> (empty: bool)
        ensures
            empty == (self@ == Map::<Seq<char>, nat>::empty()),
    {
        proof {
            use_type_invariant(self);
            let names = names_of(self.extensions@);
            if names.len() == 0 {
                assert(self@ =~= Map::<Seq<char>, nat>::empty());
            } else {
                lemma_rows_map_at(names, self.counts@, 0);
            }
        }
        self.extensions.len() == 0
    }

    /// The rows of the tally: each extension once with its count, in
    /// ascending order of the extensions.
    pub fn rows(&self) -> (rows: Vec<(String, usize)>)
        ensures
            lists(row_names(rows@), row_counts(rows@), self@),
    {
        proof {
            use_type_invariant(self);
        }
        let ghost names = names_of(self.extensions@);
        let mut rows: Vec<(String, usize)> = Vec::new();
        let mut i: usize = 0;
        while i < self.extensions.len()
            invariant
                i <= self.extensions@.len(),
                self.extensions@.len() == self.counts@.len(),
                rows@.len() == i,
                forall|j: int|
                    0 <= j < i ==> (#[trigger] rows@[j]).0@ == self.extensions@[j]@ && rows@[j].1
                        == self.counts@[j],
            decreases self.extensions@.len() - i,
        {
            rows.push((self.extensions[i].clone(), self.counts[i]));
            i = i + 1;
        }
        proof {
            assert(row_names(rows@) =~= names);
            assert forall|i: int| 0 <= i < names.len() implies self@[#[trigger] names[i]]
                == row_counts(rows@)[i] by {
                lemma_rows_map_at(names, self.counts@, i);
            }
        }
        rows
    }

    /// The sum of all counts.
    pub fn total(&self) -> (total: usize)
        ensures
            total == total_of(self@),
    {
        proof {
            use_type_invariant(self);
        }
        self.total
    }
}

/// The maps that the tallies of `parts` stand for.
pub open spec fn views_of(parts: Seq<ExtensionTally>) -> Seq<Map<Seq<char>, nat>> {
    Seq::new(parts.len(), |i: int| parts[i]@)
}

/// Merges the tallies of `parts` into one.
pub fn merge_all(parts: &Vec<ExtensionTally>) -> (tally: ExtensionTally)
    requires
        total_of(merged_all(views_of(parts@))) <= usize::MAX,
    ensures
        tally@ == merged_all(views_of(parts@)),
{
    let ghost views = views_of(parts@);
    proof {
        assert forall|i: int| 0 <= i < views.len() implies (#[trigger] views[i]).dom().finite() by {
            parts@[i].lemma_finite();
        }
        assert(views.take(0) =~= Seq::<Map<Seq<char>, nat>>::empty());
    }
    let mut tally = ExtensionTally::new();
    let mut k: usize = 0;
    while k < parts.len()
        invariant
            k <= parts@.len(),
            views == views_of(parts@),
            forall|i: int| 0 <= i < views.len() ==> (#[trigger] views[i]).dom().finite(),
            total_of(merged_all(views)) <= usize::MAX,
            tally@ == merged_all(views.take(k as int)),
        decreases parts@.len() - k,
    {
        proof {
            let next = views.take(k + 1);
            assert(next.drop_last() =~= views.take(k as int));
            assert(next.last() == parts@[k as int]@);
            lemma_merged_all_finite(views.take(k as int));
            lemma_total_merged(merged_all(views.take(k as int)), views[k as int]);
            lemma_merged_all_total_grows(views, k + 1);
        }
        tally.merge(&parts[k]);
        k = k + 1;
    }
    proof {
        assert(views.take(k as int) =~= views);
    }
    tally
}

} // verus!
