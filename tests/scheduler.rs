use homestar::cid::Cid;
use homestar::scheduler::{batches_of, dependencies, layers, schedule, split_plan, SchedulerError};
use homestar::store::ReceiptStore;

fn cid(n: u8) -> Cid {
    Cid::of_encoding(&[n])
}

#[test]
fn dependencies_follow_awaits() {
    let instructions = vec![cid(0), cid(1), cid(2)];
    let awaits = vec![vec![], vec![cid(0)], vec![cid(0), cid(1), cid(9)]];
    let deps = dependencies(&instructions, &awaits);
    assert_eq!(deps, vec![vec![], vec![0], vec![0, 1]]);
}

#[test]
fn layers_are_longest_chains() {
    let deps = vec![vec![], vec![0], vec![0, 1], vec![]];
    assert_eq!(layers(&deps), Ok(vec![0, 1, 2, 0]));
    let level = layers(&deps).unwrap();
    assert_eq!(batches_of(&level), vec![vec![0, 3], vec![1], vec![2]]);
}

#[test]
fn cycles_are_refused() {
    let deps = vec![vec![1], vec![0], vec![]];
    assert_eq!(layers(&deps), Err(SchedulerError::CyclicWorkflow));
    let deps = vec![vec![0]];
    assert_eq!(layers(&deps), Err(SchedulerError::CyclicWorkflow));
}

#[test]
fn plan_splits_at_first_unsatisfied_batch() {
    let batches = vec![vec![0, 3], vec![1], vec![2]];
    let plan = split_plan(batches.clone(), &vec![true, false, true, true]);
    assert_eq!(plan.ran, vec![vec![0, 3]]);
    assert_eq!(plan.run, vec![vec![1], vec![2]]);
    assert_eq!(plan.resume_step, Some(1));

    let plan = split_plan(batches.clone(), &vec![false, true, true, true]);
    assert!(plan.ran.is_empty());
    assert_eq!(plan.run.len(), 3);
    assert_eq!(plan.resume_step, None);

    let plan = split_plan(batches, &vec![true, true, true, true]);
    assert_eq!(plan.ran.len(), 3);
    assert!(plan.run.is_empty());
    assert_eq!(plan.resume_step, Some(3));
}

#[test]
fn empty_workflow_has_empty_plan() {
    let store = ReceiptStore::new();
    let s = schedule(&vec![], &vec![], &store).unwrap();
    assert!(s.plan.ran.is_empty());
    assert!(s.plan.run.is_empty());
    assert_eq!(s.plan.resume_step, None);
}

#[test]
fn schedule_reports_cycles() {
    let store = ReceiptStore::new();
    let instructions = vec![cid(0), cid(1)];
    let awaits = vec![vec![cid(1)], vec![cid(0)]];
    assert!(matches!(schedule(&instructions, &awaits, &store), Err(SchedulerError::CyclicWorkflow)));
}
