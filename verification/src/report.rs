//! Working through a list of requirements against one pool.
//!
//! Every weld budget of every beam gets its own attempt, in the order
//! given, and each attempt starts from the pool that the one before it
//! left. Nothing is undone or tried again in another way.

use crate::allocator::{find_combinations, is_outcome, length_of, BeamPlan};
use crate::greedy::attempt;
use crate::pool::{
    is_descending, lemma_material_nonnegative, longest_first, material, total_material,
};
use crate::requirements::{views, BeamRequires, Requirement};
use vstd::prelude::*;

verus! {

/// What the attempts for one beam came to.
#[derive(Debug, Clone, PartialEq, Eq)]
pub struct BeamReport {
    /// The outcome of each attempt, in the order of the weld budgets.
    pub plans: Vec<Option<BeamPlan>>,
    /// Whether at least one attempt assembled the beam.
    pub solved: bool,
    /// The overshoot of all the beams assembled.
    pub waste: usize,
}

/// What a run over all requirements came to.
#[derive(Debug, Clone, PartialEq, Eq)]
pub struct Report {
    /// One entry for each requirement, in order.
    pub beams: Vec<BeamReport>,
    /// The number of pieces in the pool at the start.
    pub initial_offcuts: usize,
    /// The material in the pool at the start.
    pub initial_material: usize,
    /// The number of requirements with at least one beam assembled.
    pub solved_count: usize,
    /// The overshoot of all the beams assembled.
    pub total_waste: usize,
    /// The number of pieces left in the pool.
    pub remaining_offcuts: usize,
    /// The material left in the pool.
    pub remaining_material: usize,
}

/// The pool that one attempt leaves.
pub open spec fn pool_after_attempt(
    pool: Seq<usize>,
    size: usize,
    max_welds: usize,
) -> Seq<usize> {
    match attempt(pool, size, max_welds) {
        Some(allocation) => allocation.rest,
        None => longest_first(pool),
    }
}

/// The pool after one attempt for each of the weld budgets, in turn.
pub open spec fn pool_after_beam(pool: Seq<usize>, size: usize, welds: Seq<usize>) -> Seq<usize>
    decreases welds.len(),
{
    if welds.len() == 0 {
        pool
    } else {
        pool_after_attempt(pool_after_beam(pool, size, welds.drop_last()), size, welds.last())
    }
}

/// The pool after the attempts for each of the requirements, in turn.
pub open spec fn pool_after_beams(pool: Seq<usize>, requirements: Seq<Requirement>) -> Seq<usize>
    decreases requirements.len(),
{
    if requirements.len() == 0 {
        pool
    } else {
        pool_after_beam(
            pool_after_beams(pool, requirements.drop_last()),
            requirements.last().size,
            requirements.last().welds,
        )
    }
}

/// Whether at least one of `plans` is a beam.
pub open spec fn has_beam(plans: Seq<Option<BeamPlan>>) -> bool {
    exists|k: int| 0 <= k < plans.len() && plans[k] is Some
}

/// The overshoot of the beams among `plans`.
pub open spec fn waste_of(plans: Seq<Option<BeamPlan>>) -> int
    decreases plans.len(),
{
    if plans.len() == 0 {
        0
    } else {
        waste_of(plans.drop_last()) + match plans.last() {
            Some(p) => p.waste as int,
            None => 0,
        }
    }
}

/// The material that went into the beams among `plans`.
pub open spec fn used_by(plans: Seq<Option<BeamPlan>>) -> int
    decreases plans.len(),
{
    if plans.len() == 0 {
        0
    } else {
        used_by(plans.drop_last()) + length_of(plans.last())
    }
}

/// Whether `plans` are the outcomes of the attempts for a beam of length
/// `size`, started on `pool` with the weld budgets `welds`, and `pool_after`
/// is the pool they leave.
pub open spec fn is_beam_outcome(
    pool: Seq<usize>,
    size: usize,
    welds: Seq<usize>,
    plans: Seq<Option<BeamPlan>>,
    pool_after: Seq<usize>,
) -> bool {
    &&& plans.len() == welds.len()
    &&& forall|k: int|
        0 <= k < welds.len() ==> is_outcome(
            pool_after_beam(pool, size, welds.take(k)),
            size,
            welds[k],
            #[trigger] plans[k],
            pool_after_beam(pool, size, welds.take(k + 1)),
        )
    &&& pool_after == pool_after_beam(pool, size, welds)
}

/// The number of requirements among `beams` with a beam assembled.
pub open spec fn solved_among(beams: Seq<BeamReport>) -> int
    decreases beams.len(),
{
    if beams.len() == 0 {
        0
    } else {
        solved_among(beams.drop_last()) + if beams.last().solved {
            1int
        } else {
            0int
        }
    }
}

/// The overshoot of all the beams assembled for `beams`.
pub open spec fn waste_among(beams: Seq<BeamReport>) -> int
    decreases beams.len(),
{
    if beams.len() == 0 {
        0
    } else {
        waste_among(beams.drop_last()) + beams.last().waste
    }
}

/// Whether `beams` are the reports of a run over `requirements`, started on
/// `pool`, and `pool_after` is the pool that the run leaves.
pub open spec fn is_run_outcome(
    pool: Seq<usize>,
    requirements: Seq<Requirement>,
    beams: Seq<BeamReport>,
    pool_after: Seq<usize>,
) -> bool {
    &&& beams.len() == requirements.len()
    &&& forall|b: int|
        0 <= b < requirements.len() ==> is_beam_outcome(
            pool_after_beams(pool, requirements.take(b)),
            requirements[b].size,
            requirements[b].welds,
            (#[trigger] beams[b]).plans@,
            pool_after_beams(pool, requirements.take(b + 1)),
        )
    &&& forall|b: int|
        0 <= b < requirements.len() ==> {
            &&& (#[trigger] beams[b]).solved == has_beam(beams[b].plans@)
            &&& beams[b].waste == waste_of(beams[b].plans@)
        }
    &&& pool_after == pool_after_beams(pool, requirements)
}

/// Makes one attempt for each weld budget of `beam`, in order, each on the
/// pool as the attempt before it left it.
pub fn process_beam(offcuts: &mut Vec<usize>, beam: &BeamRequires) -> (report: BeamReport)
    requires
        material(old(offcuts)@) <= usize::MAX,
    ensures
        is_beam_outcome(
            old(offcuts)@,
            beam.size,
            beam.welds@,
            report.plans@,
            final(offcuts)@,
        ),
        report.solved == has_beam(report.plans@),
        report.waste == waste_of(report.plans@),
        report.waste <= used_by(report.plans@),
        material(final(offcuts)@) + used_by(report.plans@) == material(old(offcuts)@),
        is_descending(old(offcuts)@) ==> is_descending(final(offcuts)@),
{
    let ghost before = offcuts@;
    let mut plans: Vec<Option<BeamPlan>> = Vec::new();
    let mut solved = false;
    let mut waste: usize = 0;
    let mut tried: usize = 0;
    while tried < beam.welds.len()
        invariant
            tried <= beam.welds@.len(),
            plans@.len() == tried,
            material(before) <= usize::MAX,
            offcuts@ == pool_after_beam(before, beam.size, beam.welds@.take(tried as int)),
            forall|k: int|
                0 <= k < tried ==> is_outcome(
                    pool_after_beam(before, beam.size, beam.welds@.take(k)),
                    beam.size,
                    beam.welds@[k],
                    #[trigger] plans@[k],
                    pool_after_beam(before, beam.size, beam.welds@.take(k + 1)),
                ),
            solved == has_beam(plans@),
            waste == waste_of(plans@),
            waste <= used_by(plans@),
            material(offcuts@) + used_by(plans@) == material(before),
            is_descending(before) ==> is_descending(offcuts@),
        decreases beam.welds@.len() - tried,
    {
        let ghost pool = offcuts@;
        let ghost earlier = plans@;
        let max_welds = beam.welds[tried];
        proof {
            lemma_material_nonnegative(offcuts@);
            assert(beam.welds@.take(tried + 1).drop_last() =~= beam.welds@.take(tried as int));
        }
        let plan = find_combinations(offcuts, beam.size, max_welds);
        let wasted: usize = match &plan {
            Some(p) => p.waste,
            None => 0,
        };
        if plan.is_some() {
            solved = true;
        }
        proof {
            let now = earlier.push(plan);
            assert(now.drop_last() =~= earlier);
            lemma_material_nonnegative(offcuts@);
            if plan is Some {
                assert(now[tried as int] is Some);
            } else if has_beam(earlier) {
                let k = choose|k: int| 0 <= k < earlier.len() && earlier[k] is Some;
                assert(now[k] is Some);
            } else {
                assert forall|k: int| 0 <= k < now.len() implies now[k] is None by {
                    if k < earlier.len() {
                        assert(now[k] == earlier[k]);
                    }
                }
            }
        }
        waste = waste + wasted;
        plans.push(plan);
        tried += 1;
    }
    proof {
        assert(beam.welds@.take(tried as int) =~= beam.welds@);
    }
    BeamReport { plans, solved, waste }
}

/// Works through the requirements in order, all against the one pool.
///
/// The report holds the outcome of every attempt and the totals of the
/// run. The pool is left as the last attempt left it.
pub fn process_beams(
    requirements: &Vec<BeamRequires>,
    offcuts: &mut Vec<usize>,
) -> (report: Report)
    requires
        material(old(offcuts)@) <= usize::MAX,
    ensures
        is_run_outcome(old(offcuts)@, views(requirements@), report.beams@, final(offcuts)@),
        report.initial_offcuts == old(offcuts)@.len(),
        report.initial_material == material(old(offcuts)@),
        report.solved_count == solved_among(report.beams@),
        report.solved_count <= requirements@.len(),
        report.total_waste == waste_among(report.beams@),
        report.remaining_offcuts == final(offcuts)@.len(),
        report.remaining_material == material(final(offcuts)@),
        report.total_waste + report.remaining_material <= report.initial_material,
        is_descending(old(offcuts)@) ==> is_descending(final(offcuts)@),
{
    let ghost before = offcuts@;
    let ghost wanted = views(requirements@);
    let initial_offcuts = offcuts.len();
    let initial_material = material_of(offcuts);
    let mut beams: Vec<BeamReport> = Vec::new();
    let mut solved_count: usize = 0;
    let mut total_waste: usize = 0;
    let mut done: usize = 0;
    while done < requirements.len()
        invariant
            done <= requirements@.len(),
            beams@.len() == done,
            wanted == views(requirements@),
            material(before) <= usize::MAX,
            offcuts@ == pool_after_beams(before, wanted.take(done as int)),
            forall|b: int|
                0 <= b < done ==> is_beam_outcome(
                    pool_after_beams(before, wanted.take(b)),
                    wanted[b].size,
                    wanted[b].welds,
                    (#[trigger] beams@[b]).plans@,
                    pool_after_beams(before, wanted.take(b + 1)),
                ),
            forall|b: int|
                0 <= b < done ==> {
                    &&& (#[trigger] beams@[b]).solved == has_beam(beams@[b].plans@)
                    &&& beams@[b].waste == waste_of(beams@[b].plans@)
                },
            solved_count == solved_among(beams@),
            solved_count <= done,
            total_waste == waste_among(beams@),
            total_waste + material(offcuts@) <= material(before),
            is_descending(before) ==> is_descending(offcuts@),
        decreases requirements@.len() - done,
    {
        let ghost earlier = beams@;
        proof {
            lemma_material_nonnegative(offcuts@);
            assert(wanted.take(done + 1).drop_last() =~= wanted.take(done as int));
            assert(wanted[done as int] == requirements@[done as int]@);
        }
        let beam = process_beam(offcuts, &requirements[done]);
        proof {
            assert(earlier.push(beam).drop_last() =~= earlier);
            lemma_material_nonnegative(offcuts@);
        }
        if beam.solved {
            solved_count += 1;
        }
        total_waste = total_waste + beam.waste;
        beams.push(beam);
        done += 1;
    }
    proof {
        assert(wanted.take(done as int) =~= wanted);
        lemma_material_nonnegative(offcuts@);
    }
    let remaining_offcuts = offcuts.len();
    let remaining_material = material_of(offcuts);
    Report {
        beams,
        initial_offcuts,
        initial_material,
        solved_count,
        total_waste,
        remaining_offcuts,
        remaining_material,
    }
}

/// The material of a pool that is known to fit in a `usize`.
fn material_of(pieces: &Vec<usize>) -> (total: usize)
    requires
        material(pieces@) <= usize::MAX,
    ensures
        total == material(pieces@),
{
    match total_material(pieces) {
        Some(total) => total,
        None => vstd::pervasive::unreached(),
    }
}

} // verus!
