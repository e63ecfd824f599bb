//! Beam requirements: a target length and the weld budgets to try for it.

use vstd::prelude::*;

verus! {

/// A beam to assemble: its length, and one weld budget for each attempt
/// that is to be made for it, in the order of the attempts.
#[derive(Debug, Clone, PartialEq, Eq)]
pub struct BeamRequires {
    pub size: usize,
    pub welds: Vec<usize>,
}

/// What a requirement asks for, as plain values.
pub struct Requirement {
    pub size: usize,
    pub welds: Seq<usize>,
}

impl View for BeamRequires {
    type V = Requirement;

    open spec fn view(&self) -> Requirement {
        Requirement { size: self.size, welds: self.welds@ }
    }
}

/// The requirements of a list, as plain values.
pub open spec fn views(beams: Seq<BeamRequires>) -> Seq<Requirement> {
    beams.map_values(|beam: BeamRequires| beam@)
}

/// Whether the requirements stand longest beam first.
pub open spec fn is_largest_first(requirements: Seq<Requirement>) -> bool {
    forall|i: int, j: int|
        0 <= i <= j < requirements.len() ==> requirements[i].size >= requirements[j].size
}

/// The requirements for beams of one length, in their order.
pub open spec fn of_size(requirements: Seq<Requirement>, size: usize) -> Seq<Requirement> {
    requirements.filter(|requirement: Requirement| requirement.size == size)
}

/// Nothing passes a filter that every element fails.
proof fn lemma_filter_out_all<A>(items: Seq<A>, keep: spec_fn(A) -> bool)
    requires
        forall|k: int| 0 <= k < items.len() ==> !keep(items[k]),
    ensures
        items.filter(keep) == Seq::<A>::empty(),
    decreases items.len(),
{
    reveal(Seq::filter);
    if items.len() > 0 {
        lemma_filter_out_all(items.drop_last(), keep);
    }
}

/// Moving a requirement towards the front, past requirements of other
/// sizes only, changes the order within no size.
proof fn lemma_move_keeps_order_within_sizes(
    requirements: Seq<Requirement>,
    from: int,
    to: int,
    size: usize,
)
    requires
        0 <= to <= from < requirements.len(),
        forall|k: int| to <= k < from ==> requirements[k].size != requirements[from].size,
    ensures
        of_size(requirements.remove(from).insert(to, requirements[from]), size) == of_size(
            requirements,
            size,
        ),
{
    let keep = |requirement: Requirement| requirement.size == size;
    let moved = requirements[from];
    let front = requirements.subrange(0, to);
    let passed = requirements.subrange(to, from);
    let one = seq![moved];
    let back = requirements.subrange(from + 1, requirements.len() as int);
    assert(requirements =~= ((front + passed) + one) + back);
    assert(requirements.remove(from).insert(to, moved) =~= ((front + one) + passed) + back);
    Seq::filter_distributes_over_add((front + passed) + one, back, keep);
    Seq::filter_distributes_over_add(front + passed, one, keep);
    Seq::filter_distributes_over_add(front, passed, keep);
    Seq::filter_distributes_over_add((front + one) + passed, back, keep);
    Seq::filter_distributes_over_add(front + one, passed, keep);
    Seq::filter_distributes_over_add(front, one, keep);
    if moved.size == size {
        lemma_filter_out_all(passed, keep);
    } else {
        lemma_filter_out_all(one, keep);
    }
    assert((front.filter(keep) + passed.filter(keep)) + one.filter(keep) =~= (front.filter(keep)
        + one.filter(keep)) + passed.filter(keep));
}

/// Rearranges the requirements longest beam first, so that the long beams
/// get their pieces while the pool still has them. Requirements for beams
/// of one length keep their order.
pub fn sort_largest_first(beams: &mut Vec<BeamRequires>)
    ensures
        is_largest_first(views(final(beams)@)),
        forall|size: usize|
            of_size(views(final(beams)@), size) == of_size(views(old(beams)@), size),
        final(beams)@.to_multiset() == old(beams)@.to_multiset(),
{
    let ghost before = beams@;
    let mut sorted: usize = 0;
    while sorted < beams.len()
        invariant
            sorted <= beams.len(),
            beams@.to_multiset() == before.to_multiset(),
            forall|size: usize| of_size(views(beams@), size) == of_size(views(before), size),
            is_largest_first(views(beams@).take(sorted as int)),
        decreases beams.len() - sorted,
    {
        let size = beams[sorted].size;
        let mut slot: usize = sorted;
        while slot > 0 && beams[slot - 1].size < size
            invariant
                slot <= sorted < beams.len(),
                size == beams[sorted as int].size,
                forall|k: int| slot <= k < sorted ==> beams[k].size < size,
            decreases slot,
        {
            slot -= 1;
        }
        let ghost unsorted = beams@;
        let taken = beams.remove(sorted);
        beams.insert(slot, taken);
        proof {
            let moved = unsorted[sorted as int];
            let placed = unsorted.remove(sorted as int).insert(slot as int, moved);
            assert(beams@ == placed);
            assert(placed.to_multiset() == before.to_multiset()) by {
                broadcast use vstd::multiset::group_multiset_axioms;

                vstd::seq_lib::to_multiset_remove(unsorted, sorted as int);
                vstd::seq_lib::to_multiset_insert(
                    unsorted.remove(sorted as int),
                    slot as int,
                    moved,
                );
                assert(unsorted.contains(moved));
                vstd::seq_lib::to_multiset_contains(unsorted, moved);
                assert(unsorted.to_multiset().remove(moved).insert(moved)
                    =~= unsorted.to_multiset());
            }
            let plain = views(unsorted);
            assert(views(placed) =~= plain.remove(sorted as int).insert(
                slot as int,
                plain[sorted as int],
            ));
            assert forall|any: usize| of_size(views(placed), any) == of_size(
                views(before),
                any,
            ) by {
                lemma_move_keeps_order_within_sizes(plain, sorted as int, slot as int, any);
            }
            let head = views(placed).take(sorted + 1);
            let old_head = plain.take(sorted as int);
            assert forall|i: int, j: int| 0 <= i <= j < head.len() implies head[i].size
                >= head[j].size by {
                if slot > 0 {
                    assert(old_head[slot - 1].size >= size);
                }
                if i < slot {
                    assert(head[i] == old_head[i]);
                    if slot > 0 {
                        assert(old_head[i].size >= old_head[slot - 1].size);
                    }
                } else if i > slot {
                    assert(head[i] == old_head[i - 1]);
                }
                if j < slot {
                    assert(head[j] == old_head[j]);
                } else if j > slot {
                    assert(head[j] == old_head[j - 1]);
                }
            }
        }
        sorted += 1;
    }
    proof {
        assert(views(beams@).take(beams@.len() as int) =~= views(beams@));
    }
}

} // verus!
