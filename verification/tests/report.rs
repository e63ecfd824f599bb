use beams::allocator::BeamPlan;
use beams::report::{process_beam, process_beams};
use beams::requirements::BeamRequires;

fn beam(size: usize, welds: Vec<usize>) -> BeamRequires {
    BeamRequires { size, welds }
}

fn plan(total: usize, welds: usize, used_offcuts: Vec<usize>, waste: usize) -> BeamPlan {
    BeamPlan { total, welds, used_offcuts, waste }
}

#[test]
fn each_weld_budget_gets_its_own_attempt_on_the_depleted_pool() {
    let mut pool = vec![100, 60, 50, 10];
    let report = process_beam(&mut pool, &beam(100, vec![0, 1, 2]));
    assert_eq!(
        report.plans,
        vec![
            Some(plan(100, 0, vec![100], 0)),
            Some(plan(110, 1, vec![60, 50], 10)),
            None,
        ]
    );
    assert!(report.solved);
    assert_eq!(report.waste, 10);
    assert_eq!(pool, vec![10]);
}

#[test]
fn beam_without_weld_budgets_is_not_attempted() {
    let mut pool = vec![100];
    let report = process_beam(&mut pool, &beam(100, vec![]));
    assert!(report.plans.is_empty());
    assert!(!report.solved);
    assert_eq!(report.waste, 0);
    assert_eq!(pool, vec![100]);
}

#[test]
fn run_reports_every_attempt_and_the_totals() {
    let requirements = vec![beam(100, vec![0, 1]), beam(45, vec![0]), beam(500, vec![3])];
    let mut pool = vec![100, 60, 50, 10];
    let report = process_beams(&requirements, &mut pool);
    assert_eq!(report.beams.len(), 3);
    assert_eq!(
        report.beams[0].plans,
        vec![Some(plan(100, 0, vec![100], 0)), Some(plan(110, 1, vec![60, 50], 10))]
    );
    assert_eq!(report.beams[1].plans, vec![None]);
    assert_eq!(report.beams[2].plans, vec![None]);
    assert!(report.beams[0].solved);
    assert!(!report.beams[1].solved);
    assert!(!report.beams[2].solved);
    assert_eq!(report.initial_offcuts, 4);
    assert_eq!(report.initial_material, 220);
    assert_eq!(report.solved_count, 1);
    assert_eq!(report.total_waste, 10);
    assert_eq!(report.remaining_offcuts, 1);
    assert_eq!(report.remaining_material, 10);
    assert_eq!(pool, vec![10]);
}

#[test]
fn earlier_beams_are_not_undone_for_later_ones() {
    let requirements = vec![beam(60, vec![0]), beam(100, vec![0])];
    let mut pool = vec![100, 50];
    let report = process_beams(&requirements, &mut pool);
    assert_eq!(report.beams[0].plans, vec![Some(plan(100, 0, vec![100], 40))]);
    assert_eq!(report.beams[1].plans, vec![None]);
    assert_eq!(report.solved_count, 1);
    assert_eq!(report.total_waste, 40);
    assert_eq!(pool, vec![50]);
}

#[test]
fn run_without_requirements_leaves_the_pool() {
    let mut pool = vec![3, 2, 1];
    let report = process_beams(&Vec::new(), &mut pool);
    assert!(report.beams.is_empty());
    assert_eq!(report.solved_count, 0);
    assert_eq!(report.total_waste, 0);
    assert_eq!(report.initial_material, 6);
    assert_eq!(report.remaining_material, 6);
    assert_eq!(report.initial_offcuts, 3);
    assert_eq!(report.remaining_offcuts, 3);
    assert_eq!(pool, vec![3, 2, 1]);
}

#[test]
fn waste_and_remaining_material_never_exceed_what_there_was() {
    let requirements = vec![beam(7, vec![0, 0, 1]), beam(5, vec![2]), beam(1, vec![0, 0, 0])];
    let mut pool = vec![9, 8, 4, 4, 3, 2, 2, 1];
    let report = process_beams(&requirements, &mut pool);
    let used: usize = report
        .beams
        .iter()
        .flat_map(|b| b.plans.iter())
        .map(|p| p.as_ref().map_or(0, |p| p.total))
        .sum();
    assert_eq!(used + report.remaining_material, report.initial_material);
    assert!(report.total_waste + report.remaining_material <= report.initial_material);
    assert_eq!(report.remaining_material, pool.iter().sum::<usize>());
    assert_eq!(report.remaining_offcuts, pool.len());
}
