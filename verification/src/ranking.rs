//! Picking the best of a list of ranked items.

use vstd::prelude::*;

verus! {

/// Item `a` comes before item `b` in the order of merit: it ranks higher, or
/// it ranks the same and stands earlier in the list.
pub open spec fn precedes(ranks: Seq<u32>, a: int, b: int) -> bool {
    ranks[a] > ranks[b] || (ranks[a] == ranks[b] && a < b)
}

/// Item `item` is one of `best`.
pub open spec fn listed(best: Seq<usize>, item: int) -> bool {
    exists|i: int| 0 <= i < best.len() && #[trigger] best[i] == item
}

/// `best` holds the foremost in merit of the first `seen` items, the best of
/// them first: it lists items below `seen`, each before the next in merit,
/// and every item below `seen` that it leaves out comes behind all it lists.
pub open spec fn is_top(ranks: Seq<u32>, seen: int, best: Seq<usize>) -> bool {
    &&& forall|i: int| 0 <= i < best.len() ==> 0 <= #[trigger] best[i] < seen
    &&& forall|i: int, j: int|
        0 <= i < j < best.len() ==> precedes(ranks, #[trigger] best[i] as int, #[trigger] best[j] as int)
    &&& forall|i: int, other: int|
        0 <= i < best.len() && 0 <= other < seen && !#[trigger] listed(best, other) ==> precedes(
            ranks,
            #[trigger] best[i] as int,
            other,
        )
}

/// The list is as long as it can be: it holds `k` items, or all there are.
spec fn filled(seen: int, k: int, best: Seq<usize>) -> bool {
    &&& best.len() == if k <= seen {
        k
    } else {
        seen
    }
    &&& best.len() < k ==> forall|other: int| 0 <= other < seen ==> #[trigger] listed(best, other)
}

/// The order of merit is transitive.
proof fn lemma_precedes_transitive(ranks: Seq<u32>, a: int, b: int, c: int)
    requires
        precedes(ranks, a, b),
        precedes(ranks, b, c),
    ensures
        precedes(ranks, a, c),
{
}

/// Listing item `seen` at `place`, behind all that rank at least as high and
/// before all that rank lower, keeps the list the top of what has been seen.
proof fn lemma_place(ranks: Seq<u32>, seen: int, k: int, before: Seq<usize>, place: int)
    requires
        0 <= seen < ranks.len(),
        seen <= usize::MAX,
        is_top(ranks, seen, before),
        filled(seen, k, before),
        0 <= place <= before.len(),
        place < k,
        forall|i: int| 0 <= i < place ==> ranks[#[trigger] before[i] as int] >= ranks[seen],
        place < before.len() ==> ranks[before[place] as int] < ranks[seen],
    ensures
        is_top(ranks, seen + 1, before.insert(place, seen as usize)),
        forall|other: int|
            0 <= other <= seen && before.len() < k ==> #[trigger] listed(
                before.insert(place, seen as usize),
                other,
            ),
{
    let grown = before.insert(place, seen as usize);
    assert(grown[place] == seen);
    assert forall|i: int| 0 <= i < before.len() implies #[trigger] before[i] == grown[if i < place {
        i
    } else {
        i + 1
    }] by {}
    assert forall|i: int| place < i < grown.len() implies ranks[#[trigger] grown[i] as int]
        < ranks[seen] by {
        assert(grown[i] == before[i - 1]);
        if i - 1 > place {
            assert(precedes(ranks, before[place] as int, before[i - 1] as int));
        }
    }
    assert forall|i: int| 0 <= i < place implies ranks[#[trigger] grown[i] as int] >= ranks[seen]
        && grown[i] < seen by {
        assert(grown[i] == before[i]);
    }
    assert forall|i: int, j: int| 0 <= i < j < grown.len() implies precedes(
        ranks,
        #[trigger] grown[i] as int,
        #[trigger] grown[j] as int,
    ) by {
        if i < place {
            assert(grown[i] == before[i]);
        } else if i > place {
            assert(grown[i] == before[i - 1]);
        }
        if j < place {
            assert(grown[j] == before[j]);
        } else if j > place {
            assert(grown[j] == before[j - 1]);
        }
    }
    assert forall|other: int| 0 <= other < seen && listed(before, other) implies listed(
        grown,
        other,
    ) by {
        let i = choose|i: int| 0 <= i < before.len() && #[trigger] before[i] == other;
        assert(grown[if i < place {
            i
        } else {
            i + 1
        }] == other);
    }
    assert forall|i: int, other: int|
        0 <= i < grown.len() && 0 <= other < seen + 1 && !#[trigger] listed(grown, other) implies precedes(
        ranks,
        #[trigger] grown[i] as int,
        other,
    ) by {
        assert(other != seen);
        assert(!listed(before, other));
        // Something is left out, so the list was full, and the newcomer
        // took a place before its last item.
        assert(before.len() == k);
        assert(precedes(ranks, before[place] as int, other));
        assert(precedes(ranks, seen, before[place] as int));
        if i < place {
            assert(grown[i] == before[i]);
        } else if i == place {
            lemma_precedes_transitive(ranks, seen, before[place] as int, other);
        } else {
            assert(grown[i] == before[i - 1]);
        }
    }
}

/// Dropping the last of a list that is sorted by merit leaves out an item
/// that comes behind all the others.
proof fn lemma_drop_last(ranks: Seq<u32>, seen: int, full: Seq<usize>)
    requires
        is_top(ranks, seen, full),
        full.len() > 0,
    ensures
        is_top(ranks, seen, full.drop_last()),
{
    let rest = full.drop_last();
    let last = full.last() as int;
    assert forall|i: int, other: int|
        0 <= i < rest.len() && 0 <= other < seen && !#[trigger] listed(rest, other) implies precedes(
        ranks,
        #[trigger] rest[i] as int,
        other,
    ) by {
        assert(rest[i] == full[i]);
        if other == last {
            assert(precedes(ranks, full[i] as int, full[full.len() - 1] as int));
        } else {
            if listed(full, other) {
                let j = choose|j: int| 0 <= j < full.len() && #[trigger] full[j] == other;
                assert(rest[j] == other);
            }
        }
    }
}

/// The indices of the `k` highest of `ranks`, highest first. Of two items of
/// the same rank the earlier one comes first. Where there are fewer than `k`
/// items, all of them are listed.
pub fn top_k(ranks: &Vec<u32>, k: usize) -> (best: Vec<usize>)
    ensures
        k <= ranks@.len() ==> best@.len() == k,
        k > ranks@.len() ==> best@.len() == ranks@.len(),
        is_top(ranks@, ranks@.len() as int, best@),
{
    let mut best: Vec<usize> = Vec::new();
    let mut seen: usize = 0;
    while seen < ranks.len()
        invariant
            seen <= ranks@.len(),
            is_top(ranks@, seen as int, best@),
            filled(seen as int, k as int, best@),
        decreases ranks@.len() - seen,
    {
        let rank = ranks[seen];
        let mut place: usize = 0;
        while place < best.len() && ranks[best[place]] >= rank
            invariant
                place <= best@.len(),
                seen < ranks@.len(),
                rank == ranks@[seen as int],
                is_top(ranks@, seen as int, best@),
                forall|i: int| 0 <= i < place ==> ranks@[#[trigger] best@[i] as int] >= rank,
            decreases best@.len() - place,
        {
            place = place + 1;
        }
        if place < k {
            proof {
                lemma_place(ranks@, seen as int, k as int, best@, place as int);
            }
            let ghost before = best@;
            best.insert(place, seen);
            if best.len() > k {
                proof {
                    lemma_drop_last(ranks@, seen + 1, best@);
                }
                let ghost full = best@;
                best.pop();
                assert(best@ =~= full.drop_last());
            }
        } else {
            proof {
                assert forall|i: int, other: int|
                    0 <= i < best@.len() && 0 <= other < seen + 1 && !#[trigger] listed(best@, other) implies precedes(
                    ranks@,
                    #[trigger] best@[i] as int,
                    other,
                ) by {}
            }
        }
        seen = seen + 1;
    }
    best
}

} // verus!
