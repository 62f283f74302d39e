//! The references that no known object owns yet, kept in the order of their
//! addresses.
use crate::address::Address;
use vstd::prelude::*;

verus! {

/// Whether the addresses stand in rising order, none of them twice.
pub open spec fn rising(references: Seq<Address>) -> bool {
    forall|i: int, j: int|
        0 <= i < j < references.len() ==> (#[trigger] references[i]).0 < (
        #[trigger] references[j]).0
}

/// Whether `rank` is the number of references below the address `bound`.
pub open spec fn is_rank(references: Seq<Address>, bound: int, rank: int) -> bool {
    &&& 0 <= rank <= references.len()
    &&& forall|i: int| 0 <= i < rank ==> (#[trigger] references[i]).0 < bound
    &&& forall|i: int| rank <= i < references.len() ==> (#[trigger] references[i]).0 >= bound
}

/// The number of references below the address `bound`.
pub open spec fn rank_of(references: Seq<Address>, bound: int) -> int {
    choose|rank: int| is_rank(references, bound, rank)
}

/// The references with `target` among them.
pub open spec fn with_reference(references: Seq<Address>, target: Address) -> Seq<Address> {
    if references.contains(target) {
        references
    } else {
        references.insert(rank_of(references, target.0 as int), target)
    }
}

/// The references inside `[start, start + size)`, in rising order.
pub open spec fn inside(references: Seq<Address>, start: Address, size: usize) -> Seq<Address> {
    references.subrange(
        rank_of(references, start.0 as int),
        rank_of(references, start.0 + size),
    )
}

/// The references outside `[start, start + size)`, in rising order.
pub open spec fn outside(references: Seq<Address>, start: Address, size: usize) -> Seq<Address> {
    references.subrange(0, rank_of(references, start.0 as int)) + references.subrange(
        rank_of(references, start.0 + size),
        references.len() as int,
    )
}

/// The number of references below a bound is one number only.
pub proof fn lemma_rank_unique(references: Seq<Address>, bound: int, rank: int)
    requires
        is_rank(references, bound, rank),
    ensures
        rank_of(references, bound) == rank,
{
    let other = rank_of(references, bound);
    assert(is_rank(references, bound, other));
    if other < rank {
        assert(references[other].0 < bound);
    } else if rank < other {
        assert(references[rank].0 < bound);
    }
}

/// Ranks rise with their bounds.
pub proof fn lemma_rank_rises(references: Seq<Address>, low: int, high: int)
    requires
        low <= high,
        is_rank(references, low, rank_of(references, low)),
        is_rank(references, high, rank_of(references, high)),
    ensures
        rank_of(references, low) <= rank_of(references, high),
{
    let a = rank_of(references, low);
    let b = rank_of(references, high);
    if b < a {
        assert(references[b].0 < low);
        assert(references[b].0 >= high);
    }
}

/// What `inside` and `outside` hold: the first exactly the references in the
/// range, the second exactly the others, and both in rising order.
pub proof fn lemma_inside_outside(references: Seq<Address>, start: Address, size: usize)
    requires
        rising(references),
        is_rank(references, start.0 as int, rank_of(references, start.0 as int)),
        is_rank(references, start.0 + size, rank_of(references, start.0 + size)),
    ensures
        rising(inside(references, start, size)),
        rising(outside(references, start, size)),
        forall|target: Address|
            #[trigger] inside(references, start, size).contains(target) <==> references.contains(
                target,
            ) && target.within(start, size as int),
        forall|target: Address|
            #[trigger] outside(references, start, size).contains(target) <==> references.contains(
                target,
            ) && !target.within(start, size as int),
{
    let low = rank_of(references, start.0 as int);
    let high = rank_of(references, start.0 + size);
    lemma_rank_rises(references, start.0 as int, start.0 + size);
    let taken = inside(references, start, size);
    let kept = outside(references, start, size);
    assert forall|i: int, j: int| 0 <= i < j < kept.len() implies (#[trigger] kept[i]).0 < (
    #[trigger] kept[j]).0 by {
        let a = if i < low { i } else { i - low + high };
        let b = if j < low { j } else { j - low + high };
        assert(kept[i] == references[a]);
        assert(kept[j] == references[b]);
    }
    assert forall|target: Address| taken.contains(target) <==> references.contains(target)
        && target.within(start, size as int) by {
        if taken.contains(target) {
            let i = choose|i: int| 0 <= i < taken.len() && taken[i] == target;
            assert(references[low + i] == target);
        }
        if references.contains(target) && target.within(start, size as int) {
            let i = choose|i: int| 0 <= i < references.len() && references[i] == target;
            assert(low <= i < high);
            assert(taken[i - low] == target);
        }
    }
    assert forall|target: Address| kept.contains(target) <==> references.contains(target)
        && !target.within(start, size as int) by {
        if kept.contains(target) {
            let i = choose|i: int| 0 <= i < kept.len() && kept[i] == target;
            let a = if i < low { i } else { i - low + high };
            assert(references[a] == target);
        }
        if references.contains(target) && !target.within(start, size as int) {
            let i = choose|i: int| 0 <= i < references.len() && references[i] == target;
            if i < low {
                assert(kept[i] == target);
            } else {
                assert(i >= high);
                assert(kept[i - high + low] == target);
            }
        }
    }
}

/// What `with_reference` holds: the references and `target`, in rising order.
pub proof fn lemma_with_reference(references: Seq<Address>, target: Address)
    requires
        rising(references),
        is_rank(references, target.0 as int, rank_of(references, target.0 as int)),
    ensures
        rising(with_reference(references, target)),
        forall|other: Address|
            with_reference(references, target).contains(other) <==> references.contains(other)
                || other == target,
{
    let after = with_reference(references, target);
    if !references.contains(target) {
        let at = rank_of(references, target.0 as int);
        assert forall|i: int| at <= i < references.len() implies (#[trigger] references[i]).0
            > target.0 by {
            assert(references[i].0 >= target.0);
            if references[i].0 == target.0 {
                assert(references[i] == target);
            }
        }
        assert forall|i: int, j: int| 0 <= i < j < after.len() implies (#[trigger] after[i]).0 < (
        #[trigger] after[j]).0 by {
            let a = if i < at { i } else { i - 1 };
            let b = if j < at { j } else { j - 1 };
            if i != at && j != at {
                assert(references[a].0 < references[b].0);
            }
        }
        assert forall|other: Address| after.contains(other) <==> references.contains(other)
            || other == target by {
            if after.contains(other) {
                let i = choose|i: int| 0 <= i < after.len() && after[i] == other;
                if i < at {
                    assert(references[i] == other);
                } else if i > at {
                    assert(references[i - 1] == other);
                }
            }
            if references.contains(other) {
                let i = choose|i: int| 0 <= i < references.len() && references[i] == other;
                if i < at {
                    assert(after[i] == other);
                } else {
                    assert(after[i + 1] == other);
                }
            }
            if other == target {
                assert(after[at] == target);
            }
        }
    }
}

/// The number of references below the address `bound`.
pub fn rank(references: &Vec<Address>, bound: usize) -> (rank: usize)
    requires
        rising(references@),
    ensures
        is_rank(references@, bound as int, rank as int),
        rank as int == rank_of(references@, bound as int),
{
    let mut low: usize = 0;
    let mut high: usize = references.len();
    while low < high
        invariant
            rising(references@),
            low <= high <= references.len(),
            forall|i: int| 0 <= i < low ==> (#[trigger] references@[i]).0 < bound,
            forall|i: int| high <= i < references.len() ==> (#[trigger] references@[i]).0 >= bound,
        decreases high - low,
    {
        let middle: usize = low + (high - low) / 2;
        if references[middle].0 < bound {
            proof {
                assert forall|i: int| 0 <= i < middle + 1 implies (#[trigger] references@[i]).0
                    < bound by {
                    if i < middle {
                        assert(references@[i].0 < references@[middle as int].0);
                    }
                }
            }
            low = middle + 1;
        } else {
            proof {
                assert forall|i: int| middle <= i < references.len() implies (
                #[trigger] references@[i]).0 >= bound by {
                    if middle < i {
                        assert(references@[middle as int].0 < references@[i].0);
                    }
                }
            }
            high = middle;
        }
    }
    proof {
        lemma_rank_unique(references@, bound as int, low as int);
    }
    low
}

/// Puts `target` among the references, unless it is there already.
pub fn insert_reference(references: &mut Vec<Address>, target: Address)
    requires
        rising(old(references)@),
    ensures
        final(references)@ == with_reference(old(references)@, target),
        rising(final(references)@),
{
    let at = rank(references, target.0);
    proof {
        lemma_with_reference(references@, target);
    }
    if at < references.len() && references[at].0 == target.0 {
        assert(references@[at as int] == target);
    } else {
        proof {
            if references@.contains(target) {
                let i = choose|i: int| 0 <= i < references@.len() && references@[i] == target;
                if i < at {
                    assert(references@[i].0 < target.0);
                } else if i > at {
                    assert(references@[at as int].0 < references@[i].0);
                }
            }
        }
        references.insert(at, target);
    }
}

/// Takes the references inside `[start, start + size)` out, and returns them in
/// rising order.
pub fn take_range(references: &mut Vec<Address>, start: Address, size: usize) -> (taken: Vec<
    Address,
>)
    requires
        rising(old(references)@),
        start.0 + size <= usize::MAX,
    ensures
        taken@ == inside(old(references)@, start, size),
        final(references)@ == outside(old(references)@, start, size),
        rising(final(references)@),
{
    let low = rank(references, start.0);
    let high = rank(references, start.0 + size);
    proof {
        lemma_rank_rises(references@, start.0 as int, start.0 + size);
        lemma_inside_outside(references@, start, size);
    }
    let ghost before = references@;
    let mut tail = references.split_off(high);
    let taken = references.split_off(low);
    references.append(&mut tail);
    proof {
        assert(taken@ =~= before.subrange(low as int, high as int));
        assert(references@ =~= before.subrange(0, low as int) + before.subrange(
            high as int,
            before.len() as int,
        ));
    }
    taken
}

} // verus!
