//! The mathematics of a tally: a finite map from extensions to line
//! counts, with the operations that build one and the laws they obey.

use vstd::prelude::*;

verus! {

/// The count that `counts` holds for `extension`: zero where it holds none.
pub open spec fn count_of(counts: Map<Seq<char>, nat>, extension: Seq<char>) -> nat {
    if counts.dom().contains(extension) {
        counts[extension]
    } else {
        0
    }
}

/// `counts` after `lines` more lines were recorded for `extension`. The
/// extension becomes a key even where `lines` is zero.
pub open spec fn recorded(counts: Map<Seq<char>, nat>, extension: Seq<char>, lines: nat) -> Map<
    Seq<char>,
    nat,
> {
    counts.insert(extension, count_of(counts, extension) + lines)
}

/// The tally that holds every key of `a` and of `b`, each with the sum of
/// its counts in the two.
pub open spec fn merged(a: Map<Seq<char>, nat>, b: Map<Seq<char>, nat>) -> Map<Seq<char>, nat> {
    Map::new(
        |e: Seq<char>| a.dom().contains(e) || b.dom().contains(e),
        |e: Seq<char>| count_of(a, e) + count_of(b, e),
    )
}

/// The tallies of `parts` merged into one, from the first to the last.
pub open spec fn merged_all(parts: Seq<Map<Seq<char>, nat>>) -> Map<Seq<char>, nat>
    decreases parts.len(),
{
    if parts.len() == 0 {
        Map::empty()
    } else {
        merged(merged_all(parts.drop_last()), parts.last())
    }
}

/// The sum of all counts of a finite tally.
pub open spec fn total_of(counts: Map<Seq<char>, nat>) -> nat
    decreases counts.dom().len(),
{
    if counts.dom().finite() && counts.dom().len() > 0 {
        let e = counts.dom().choose();
        counts[e] + total_of(counts.remove(e))
    } else {
        0
    }
}

/// The total may be taken with any key first.
pub proof fn lemma_total_split(counts: Map<Seq<char>, nat>, extension: Seq<char>)
    requires
        counts.dom().finite(),
        counts.dom().contains(extension),
    ensures
        total_of(counts) == counts[extension] + total_of(counts.remove(extension)),
    decreases counts.dom().len(),
{
    let first = counts.dom().choose();
    if first != extension {
        lemma_total_split(counts.remove(first), extension);
        lemma_total_split(counts.remove(extension), first);
        assert(counts.remove(first).remove(extension) =~= counts.remove(extension).remove(first));
    }
}

/// No count is larger than the total.
pub proof fn lemma_count_within_total(counts: Map<Seq<char>, nat>, extension: Seq<char>)
    requires
        counts.dom().finite(),
    ensures
        count_of(counts, extension) <= total_of(counts),
{
    if counts.dom().contains(extension) {
        lemma_total_split(counts, extension);
    }
}

/// Recording lines keeps a tally finite and adds them to its total.
pub proof fn lemma_total_recorded(counts: Map<Seq<char>, nat>, extension: Seq<char>, lines: nat)
    requires
        counts.dom().finite(),
    ensures
        recorded(counts, extension, lines).dom().finite(),
        total_of(recorded(counts, extension, lines)) == total_of(counts) + lines,
{
    let after = recorded(counts, extension, lines);
    lemma_total_split(after, extension);
    if counts.dom().contains(extension) {
        lemma_total_split(counts, extension);
        assert(after.remove(extension) =~= counts.remove(extension));
    } else {
        assert(after.remove(extension) =~= counts);
    }
}

/// Two records may be made in either order.
pub proof fn lemma_recorded_commutes(
    counts: Map<Seq<char>, nat>,
    first: Seq<char>,
    first_lines: nat,
    second: Seq<char>,
    second_lines: nat,
)
    ensures
        recorded(recorded(counts, first, first_lines), second, second_lines) == recorded(
            recorded(counts, second, second_lines),
            first,
            first_lines,
        ),
{
    assert(recorded(recorded(counts, first, first_lines), second, second_lines) =~= recorded(
        recorded(counts, second, second_lines),
        first,
        first_lines,
    ));
}

/// Merging with the empty tally changes nothing.
pub proof fn lemma_merged_empty(a: Map<Seq<char>, nat>)
    ensures
        merged(a, Map::empty()) == a,
        merged(Map::empty(), a) == a,
{
    assert(merged(a, Map::empty()) =~= a);
    assert(merged(Map::empty(), a) =~= a);
}

/// Merging does not depend on which tally comes first.
pub proof fn lemma_merged_commutes(a: Map<Seq<char>, nat>, b: Map<Seq<char>, nat>)
    ensures
        merged(a, b) == merged(b, a),
{
    assert(merged(a, b) =~= merged(b, a));
}

/// Merging does not depend on how the tallies are grouped.
pub proof fn lemma_merged_associates(
    a: Map<Seq<char>, nat>,
    b: Map<Seq<char>, nat>,
    c: Map<Seq<char>, nat>,
)
    ensures
        merged(merged(a, b), c) == merged(a, merged(b, c)),
{
    assert(merged(merged(a, b), c) =~= merged(a, merged(b, c)));
}

/// Recording lines for one extension is merging with the tally of that
/// extension alone.
pub proof fn lemma_recorded_is_merged(
    counts: Map<Seq<char>, nat>,
    extension: Seq<char>,
    lines: nat,
)
    ensures
        recorded(counts, extension, lines) == merged(
            counts,
            Map::<Seq<char>, nat>::empty().insert(extension, lines),
        ),
{
    assert(recorded(counts, extension, lines) =~= merged(
        counts,
        Map::<Seq<char>, nat>::empty().insert(extension, lines),
    ));
}

/// The merge of two finite tallies is finite, and its total is the sum of
/// their totals.
pub proof fn lemma_total_merged(a: Map<Seq<char>, nat>, b: Map<Seq<char>, nat>)
    requires
        a.dom().finite(),
        b.dom().finite(),
    ensures
        merged(a, b).dom().finite(),
        total_of(merged(a, b)) == total_of(a) + total_of(b),
    decreases b.dom().len(),
{
    if b.dom().len() == 0 {
        assert(b =~= Map::empty());
        lemma_merged_empty(a);
    } else {
        let e = b.dom().choose();
        let rest = b.remove(e);
        lemma_total_merged(a, rest);
        lemma_total_split(b, e);
        lemma_total_recorded(merged(a, rest), e, b[e]);
        assert(merged(a, b) =~= recorded(merged(a, rest), e, b[e]));
    }
}

/// The merge of finite tallies is finite.
pub proof fn lemma_merged_all_finite(parts: Seq<Map<Seq<char>, nat>>)
    requires
        forall|i: int| 0 <= i < parts.len() ==> (#[trigger] parts[i]).dom().finite(),
    ensures
        merged_all(parts).dom().finite(),
    decreases parts.len(),
{
    if parts.len() > 0 {
        lemma_merged_all_finite(parts.drop_last());
        lemma_total_merged(merged_all(parts.drop_last()), parts.last());
    }
}

/// The first parts merge into a tally whose total is no larger than that
/// of all parts merged.
pub proof fn lemma_merged_all_total_grows(parts: Seq<Map<Seq<char>, nat>>, k: int)
    requires
        forall|i: int| 0 <= i < parts.len() ==> (#[trigger] parts[i]).dom().finite(),
        0 <= k <= parts.len(),
    ensures
        total_of(merged_all(parts.take(k))) <= total_of(merged_all(parts)),
    decreases parts.len() - k,
{
    if k == parts.len() {
        assert(parts.take(k) =~= parts);
    } else {
        let next = parts.take(k + 1);
        assert(next.drop_last() =~= parts.take(k));
        lemma_merged_all_finite(parts.take(k));
        lemma_total_merged(merged_all(parts.take(k)), parts[k]);
        lemma_merged_all_total_grows(parts, k + 1);
    }
}

/// Any one part may be merged last.
pub proof fn lemma_merged_all_remove(parts: Seq<Map<Seq<char>, nat>>, at: int)
    requires
        0 <= at < parts.len(),
    ensures
        merged_all(parts) == merged(merged_all(parts.remove(at)), parts[at]),
    decreases parts.len(),
{
    let front = parts.drop_last();
    if at == parts.len() - 1 {
        assert(parts.remove(at) =~= front);
    } else {
        lemma_merged_all_remove(front, at);
        assert(parts.remove(at).drop_last() =~= front.remove(at));
        assert(parts.remove(at).last() == parts.last());
        let core = merged_all(front.remove(at));
        assert(merged(merged(core, parts[at]), parts.last()) =~= merged(
            merged(core, parts.last()),
            parts[at],
        ));
    }
}

/// The merge of several tallies does not depend on their order: two
/// sequences that hold the same tallies, each as often as the other, merge
/// into the same tally.
pub proof fn lemma_merged_all_any_order(
    parts: Seq<Map<Seq<char>, nat>>,
    shuffled: Seq<Map<Seq<char>, nat>>,
)
    requires
        parts.to_multiset() == shuffled.to_multiset(),
    ensures
        merged_all(parts) == merged_all(shuffled),
    decreases parts.len(),
{
    parts.to_multiset_ensures();
    shuffled.to_multiset_ensures();
    if parts.len() > 0 {
        let last = parts.last();
        assert(parts[parts.len() - 1] == last);
        assert(parts.contains(last));
        assert(parts.to_multiset().count(last) > 0);
        assert(shuffled.to_multiset().count(last) > 0);
        assert(shuffled.contains(last));
        let at = choose|i: int| 0 <= i < shuffled.len() && shuffled[i] == last;
        assert(parts.remove(parts.len() - 1) =~= parts.drop_last());
        assert(parts.drop_last().to_multiset() =~= shuffled.remove(at).to_multiset());
        lemma_merged_all_any_order(parts.drop_last(), shuffled.remove(at));
        lemma_merged_all_remove(shuffled, at);
    }
}

} // verus!
