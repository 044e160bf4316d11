use homestar::cid::Cid;
use homestar::runner::RunningTasks;
use homestar::worker::WorkerMessage;

#[test]
fn running_tasks_accumulate_per_workflow() {
    let mut rt = RunningTasks::new();
    let w1 = Cid::of_encoding(&[1]);
    let w2 = Cid::of_encoding(&[2]);
    rt.append_or_insert(w1.clone(), vec![10, 11]);
    rt.append_or_insert(w2.clone(), vec![20]);
    rt.append_or_insert(w1.clone(), vec![12]);
    assert_eq!(rt.get(&w1), Some(vec![10, 11, 12]));
    assert_eq!(rt.get(&w2), Some(vec![20]));
}

#[test]
fn dropped_worker_releases_its_tasks() {
    let mut rt = RunningTasks::new();
    let w1 = Cid::of_encoding(&[1]);
    rt.append_or_insert(w1.clone(), vec![10]);
    assert_eq!(rt.on_worker_message(WorkerMessage::Dropped(w1.clone())), Some(vec![10]));
    assert_eq!(rt.get(&w1), None);
    assert_eq!(rt.on_worker_message(WorkerMessage::Dropped(w1)), None);
}
