//! The allocator: builds one beam out of pieces from the pool, as the
//! greedy run prescribes, and takes the pieces out of the pool for good
//! only where the beam was reached.

use crate::choice::{
    largest_at_most, lemma_extending_choice_is, lemma_finishing_choice_is, smallest_at_least,
};
use crate::greedy::{
    allocate, attempt, lemma_allocation_conserves_pool, lemma_allocation_of_same_pieces,
    lemma_allocation_reaches_target, lemma_allocation_succeeds_within_reach,
    lemma_taking_conserves, within_reach, Allocation,
};
use crate::pool::{
    is_descending, lemma_longest_first, lemma_material_nonnegative,
    lemma_material_of_same_pieces, lemma_material_push, lemma_no_pieces, longest_first, material,
    sort_descending,
};
use vstd::multiset::*;
use vstd::prelude::*;
use vstd::seq_lib::*;

verus! {

/// A beam assembled from offcuts.
#[derive(Debug, Clone, PartialEq, Eq)]
pub struct BeamPlan {
    /// The combined length of the pieces used.
    pub total: usize,
    /// The number of joints: one less than the number of pieces.
    pub welds: usize,
    /// The pieces, in the order in which they were chosen.
    pub used_offcuts: Vec<usize>,
    /// The length by which the beam overshoots its target.
    pub waste: usize,
}

impl BeamPlan {
    /// Whether this plan is the one that joins the pieces `used` into a beam
    /// of length `target_length`.
    pub open spec fn records(&self, used: Seq<usize>, target_length: usize) -> bool {
        &&& self.used_offcuts@ == used
        &&& self.total == material(used)
        &&& self.welds == used.len() - 1
        &&& self.waste == material(used) - target_length
    }
}

/// Whether the length of the beam that the attempt assembles, if it
/// assembles one, fits in a `usize`. It does wherever the material of the
/// pool fits, and wherever every piece, added to the target, fits.
pub open spec fn plan_fits(pool: Seq<usize>, target_length: usize, max_welds: usize) -> bool {
    ||| material(pool) <= usize::MAX
    ||| forall|index: int| 0 <= index < pool.len() ==> pool[index] + target_length <= usize::MAX
    ||| attempt(pool, target_length, max_welds) matches Some(allocation) ==> material(
        allocation.used,
    ) <= usize::MAX
}

/// Whether an attempt on `pool` ends with `plan` and leaves `pool_after`.
///
/// A plan takes its pieces out of the pool for good. Without a plan the pool
/// keeps every piece, longest first.
pub open spec fn is_outcome(
    pool: Seq<usize>,
    target_length: usize,
    max_welds: usize,
    plan: Option<BeamPlan>,
    pool_after: Seq<usize>,
) -> bool {
    match attempt(pool, target_length, max_welds) {
        Some(allocation) => {
            &&& plan matches Some(p)
            &&& p.records(allocation.used, target_length)
            &&& pool_after == allocation.rest
        },
        None => plan is None && pool_after == longest_first(pool),
    }
}

/// The length of the beam that was assembled, nothing where none was.
pub open spec fn length_of(plan: Option<BeamPlan>) -> int {
    match plan {
        Some(p) => p.total as int,
        None => 0,
    }
}

/// The pieces `used` so far, followed by what a later run takes.
spec fn continued(used: Seq<usize>, later: Option<Allocation>) -> Option<Allocation> {
    match later {
        Some(allocation) => Some(
            Allocation { used: used + allocation.used, rest: allocation.rest },
        ),
        None => None,
    }
}

/// A beam is no longer than the pool it was cut from, and it overshoots
/// its target by less than its last piece.
pub proof fn lemma_plan_length(pool: Seq<usize>, target_length: usize, max_welds: usize)
    requires
        attempt(pool, target_length, max_welds) is Some,
    ensures
        ({
            let used = attempt(pool, target_length, max_welds)->0.used;
            &&& material(used) <= material(pool)
            &&& material(used) <= target_length + used.last()
            &&& exists|index: int| 0 <= index < pool.len() && pool[index] == used.last()
        }),
{
    let allocation = attempt(pool, target_length, max_welds)->0;
    let used = allocation.used;
    lemma_allocation_conserves_pool(pool, target_length as int, (max_welds + 1) as nat);
    lemma_allocation_reaches_target(pool, target_length as int, (max_welds + 1) as nat);
    lemma_material_nonnegative(allocation.rest);
    lemma_material_nonnegative(used.drop_last());
    assert(used =~= used.drop_last().push(used.last()));
    lemma_material_push(used.drop_last(), used.last());
    assert(pool.contains(used.last())) by {
        broadcast use group_multiset_axioms;

        assert(used.contains(used.last())) by {
            assert(used[used.len() - 1] == used.last());
        }
        to_multiset_contains(used, used.last());
        to_multiset_contains(pool, used.last());
    }
}

/// An attempt that ends without a plan leaves a pool on which the same
/// attempt, made again at once, ends without a plan too and changes nothing.
pub proof fn lemma_failure_repeats(
    pool: Seq<usize>,
    target_length: usize,
    max_welds: usize,
    pool_after: Seq<usize>,
    second_plan: Option<BeamPlan>,
    second_pool_after: Seq<usize>,
)
    requires
        is_outcome(pool, target_length, max_welds, None, pool_after),
        is_outcome(pool_after, target_length, max_welds, second_plan, second_pool_after),
    ensures
        second_plan is None,
        second_pool_after == pool_after,
        is_descending(pool) ==> pool_after == pool,
{
    lemma_longest_first(pool);
    lemma_longest_first(pool_after);
    lemma_allocation_of_same_pieces(
        pool,
        pool_after,
        target_length as int,
        (max_welds + 1) as nat,
    );
}

/// The pool, the target and the weld budget decide the outcome: two
/// attempts from the same state agree on whether there is a plan, on every
/// field of the plan, and on the pool that is left.
pub proof fn lemma_outcome_is_determined(
    pool: Seq<usize>,
    target_length: usize,
    max_welds: usize,
    first_plan: Option<BeamPlan>,
    first_pool_after: Seq<usize>,
    second_plan: Option<BeamPlan>,
    second_pool_after: Seq<usize>,
)
    requires
        is_outcome(pool, target_length, max_welds, first_plan, first_pool_after),
        is_outcome(pool, target_length, max_welds, second_plan, second_pool_after),
    ensures
        first_pool_after == second_pool_after,
        first_plan is Some <==> second_plan is Some,
        first_plan matches Some(first) ==> ({
            let second = second_plan->0;
            &&& first.total == second.total
            &&& first.welds == second.welds
            &&& first.used_offcuts@ == second.used_offcuts@
            &&& first.waste == second.waste
        }),
{
}

/// Tries to assemble a beam of `target_length` from at most `max_welds + 1`
/// pieces of the pool.
///
/// Each step takes the shortest piece that covers what is still needed and
/// is done; where no piece covers it, the step takes the longest piece and
/// goes on. So there is a plan exactly where the `max_welds + 1` longest
/// pieces of the pool together reach the target. With a plan, the pieces
/// used have left the pool. Without one the pool holds every piece it held
/// before, longest first: a pool that stood longest first is unchanged.
pub fn find_combinations(
    offcuts: &mut Vec<usize>,
    target_length: usize,
    max_welds: usize,
) -> (plan: Option<BeamPlan>)
    requires
        plan_fits(old(offcuts)@, target_length, max_welds),
    ensures
        is_outcome(old(offcuts)@, target_length, max_welds, plan, final(offcuts)@),
        plan is Some <==> within_reach(
            old(offcuts)@,
            target_length as int,
            (max_welds + 1) as nat,
        ),
        plan matches Some(p) ==> ({
            &&& p.total >= target_length
            &&& 1 <= p.used_offcuts@.len() <= max_welds + 1
            &&& p.welds == p.used_offcuts@.len() - 1
            &&& p.total == material(p.used_offcuts@)
            &&& p.waste == p.total - target_length
            &&& final(offcuts)@.to_multiset().add(p.used_offcuts@.to_multiset())
                == old(offcuts)@.to_multiset()
        }),
        plan is None ==> final(offcuts)@.to_multiset() == old(offcuts)@.to_multiset(),
        plan is None && is_descending(old(offcuts)@) ==> final(offcuts)@ == old(offcuts)@,
        material(final(offcuts)@) + length_of(plan) == material(old(offcuts)@),
        is_descending(old(offcuts)@) ==> is_descending(final(offcuts)@),
{
    let ghost before = offcuts@;
    let ghost whole = attempt(before, target_length, max_welds);
    let mut used_offcuts: Vec<usize> = Vec::new();
    let mut total: usize = 0;
    proof {
        broadcast use group_multiset_axioms;

        if whole is Some {
            lemma_plan_length(before, target_length, max_welds);
        }
        lemma_no_pieces();
        assert(offcuts@.to_multiset().add(used_offcuts@.to_multiset()) =~= before.to_multiset());
        match whole {
            Some(allocation) => {
                assert(used_offcuts@ + allocation.used =~= allocation.used);
            },
            None => {},
        }
    }
    while used_offcuts.len() <= max_welds
        invariant
            before == old(offcuts)@,
            used_offcuts@.len() <= max_welds + 1,
            total == material(used_offcuts@),
            total <= target_length,
            whole == attempt(before, target_length, max_welds),
            whole matches Some(allocation) ==> material(allocation.used) <= usize::MAX,
            whole == continued(
                used_offcuts@,
                allocate(
                    offcuts@,
                    target_length - total,
                    (max_welds + 1 - used_offcuts@.len()) as nat,
                ),
            ),
            offcuts@.to_multiset().add(used_offcuts@.to_multiset()) == before.to_multiset(),
        ensures
            whole is None,
            offcuts@.to_multiset().add(used_offcuts@.to_multiset()) == before.to_multiset(),
        decreases max_welds + 1 - used_offcuts.len(),
    {
        let remaining = target_length.saturating_sub(total);
        let ghost pool = offcuts@;
        let ghost used = used_offcuts@;
        match smallest_at_least(offcuts, remaining) {
            Some(index) => {
                proof {
                    let piece = pool[index as int];
                    lemma_finishing_choice_is(pool, remaining as int, index as int);
                    lemma_material_push(used, piece);
                    assert(used + seq![piece] =~= used.push(piece));
                    assert(allocate(
                        pool,
                        target_length - total,
                        (max_welds + 1 - used.len()) as nat,
                    ) == Some(Allocation { used: seq![piece], rest: pool.remove(index as int) }));
                    assert(whole == Some(
                        Allocation { used: used.push(piece), rest: pool.remove(index as int) },
                    ));
                    lemma_taking_conserves(pool, index as int, used);
                    lemma_allocation_reaches_target(
                        before,
                        target_length as int,
                        (max_welds + 1) as nat,
                    );
                    lemma_allocation_conserves_pool(
                        before,
                        target_length as int,
                        (max_welds + 1) as nat,
                    );
                    lemma_allocation_succeeds_within_reach(
                        before,
                        target_length as int,
                        (max_welds + 1) as nat,
                    );
                    lemma_longest_first(before);
                }
                let offcut = offcuts.remove(index);
                used_offcuts.push(offcut);
                total += offcut;
                return Some(
                    BeamPlan {
                        total,
                        welds: used_offcuts.len() - 1,
                        used_offcuts,
                        waste: total - target_length,
                    },
                );
            },
            None => {},
        }
        match largest_at_most(offcuts, remaining) {
            Some(index) => {
                proof {
                    lemma_extending_choice_is(pool, remaining as int, index as int);
                    let piece = pool[index as int];
                    lemma_material_push(used, piece);
                    let later = allocate(
                        pool.remove(index as int),
                        remaining - piece,
                        (max_welds - used.len()) as nat,
                    );
                    match later {
                        Some(allocation) => {
                            assert(used + (seq![piece] + allocation.used) =~= used.push(piece)
                                + allocation.used);
                        },
                        None => {},
                    }
                    lemma_taking_conserves(pool, index as int, used);
                }
                let offcut = offcuts.remove(index);
                used_offcuts.push(offcut);
                total += offcut;
            },
            None => {
                break;
            },
        }
    }
    proof {
        lemma_multiset_commutative(offcuts@, used_offcuts@);
        lemma_allocation_succeeds_within_reach(
            before,
            target_length as int,
            (max_welds + 1) as nat,
        );
        lemma_longest_first(before);
        lemma_material_of_same_pieces(offcuts@ + used_offcuts@, before);
        lemma_material_of_same_pieces(longest_first(before), before);
    }
    offcuts.append(&mut used_offcuts);
    sort_descending(offcuts);
    None
}

} // verus!
