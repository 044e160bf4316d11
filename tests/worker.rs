use homestar::cid::Cid;
use homestar::instruction_result::InstructionResult;
use homestar::receipt::Receipt;
use homestar::scheduler::{schedule, SchedulerError};
use homestar::store::{init_info, ReceiptStore, WorkflowStore};
use homestar::value::Value;
use homestar::worker::{InitError, ResourceCache, Resolution, Worker, WorkerError, WorkerEvent};
use homestar::workflow::{parse_input, workflow_cid, Instruction, Task};
use homestar::workflow_info::{Resource, WorkflowInfo};

const MODULE: &str = "ipfs://bafybeiabbxwf2vn4j3zm7bbojr6rt6k7o6cg6xcbhqkllubmsnvocpv7y";

fn add_one_task(arg: Value) -> Task {
    Task {
        run: Instruction {
            resource: MODULE.to_string(),
            op: "wasm/run".to_string(),
            input: Value::Dict(vec![
                ("args".to_string(), Value::List(vec![arg])),
                ("func".to_string(), Value::Text("add_one".to_string())),
            ]),
            nonce: vec![],
        },
        prf: vec![],
    }
}

fn await_ok(c: &Cid) -> Value {
    Value::Dict(vec![("await/ok".to_string(), Value::Link(c.clone()))])
}

fn add_one(_module: &Vec<u8>, func: &String, args: &Vec<InstructionResult<Value>>) -> Option<Value> {
    match (func.as_str(), args.as_slice()) {
        ("add_one", [InstructionResult::Just(Value::Integer(n))]) => Some(Value::Integer(n + 1)),
        ("add_one", [InstructionResult::Success(Value::Integer(n))]) => Some(Value::Integer(n + 1)),
        _ => None,
    }
}

fn no_network(_c: &Cid) -> Option<Receipt> {
    None
}

fn linear_workflow() -> Vec<Task> {
    let t1 = add_one_task(Value::Integer(1));
    let c1 = t1.run.cid();
    let t2 = add_one_task(await_ok(&c1));
    vec![t1, t2]
}

fn worker_for(tasks: Vec<Task>, store: &ReceiptStore) -> Result<Worker, SchedulerError> {
    let instructions: Vec<Cid> = tasks.iter().map(|t| t.run.cid()).collect();
    let awaits: Vec<Vec<Cid>> = tasks
        .iter()
        .map(|t| parse_input(t.run.input.copy()).unwrap().awaits())
        .collect();
    let sched = schedule(&instructions, &awaits, store)?;
    let info = WorkflowInfo::new(workflow_cid(&tasks), tasks.len() as u32, None, vec![]);
    let resources = ResourceCache { entries: vec![(Resource::Url(MODULE.to_string()), vec![0u8, 97, 115, 109])] };
    Ok(Worker::new(tasks, info, "test".to_string(), sched.plan, resources))
}

fn captured(w: &Worker) -> usize {
    w.events.iter().filter(|e| matches!(e, WorkerEvent::CapturedReceipt { .. })).count()
}

fn replays(w: &Worker) -> Vec<&Vec<Cid>> {
    w.events
        .iter()
        .filter_map(|e| match e {
            WorkerEvent::ReplayReceipts { instructions, .. } => Some(instructions),
            _ => None,
        })
        .collect()
}

#[test]
fn single_task_cold() {
    let mut store = ReceiptStore::new();
    let tasks = vec![add_one_task(Value::Integer(1))];
    let c1 = tasks[0].run.cid();
    let mut w = worker_for(tasks, &store).unwrap();
    assert_eq!(w.plan.run.len(), 1);
    w.run(&mut store, &add_one, &no_network).unwrap();
    assert_eq!(captured(&w), 1);
    assert_eq!(w.info.progress_count, 1);
    let r = store.find(&c1).unwrap();
    assert_eq!(r.out, InstructionResult::Success(Value::Integer(2)));
    match &w.events[0] {
        WorkerEvent::CapturedReceipt { receipt, .. } => assert!(receipt.same(&r.cid())),
        other => panic!("unexpected event {:?}", other),
    }
}

#[test]
fn linear_dependency() {
    let mut store = ReceiptStore::new();
    let tasks = linear_workflow();
    let c1 = tasks[0].run.cid();
    let c2 = tasks[1].run.cid();
    let mut w = worker_for(tasks, &store).unwrap();
    assert_eq!(w.plan.run.len(), 2);
    assert_eq!(w.plan.run[0], vec![0]);
    assert_eq!(w.plan.run[1], vec![1]);
    w.run(&mut store, &add_one, &no_network).unwrap();
    assert_eq!(store.find(&c2).unwrap().out, InstructionResult::Success(Value::Integer(3)));
    assert_eq!(w.linkmap.lookup(&c1), Some(InstructionResult::Success(Value::Integer(2))));
    assert_eq!(w.info.progress_count, 2);
    assert_eq!(w.info.progress.len(), 2);
    assert_eq!(captured(&w), 2);
    assert!(replays(&w).is_empty());
}

#[test]
fn warm_replay() {
    let mut store = ReceiptStore::new();
    let mut first = worker_for(linear_workflow(), &store).unwrap();
    first.run(&mut store, &add_one, &no_network).unwrap();

    let tasks = linear_workflow();
    let c1 = tasks[0].run.cid();
    let c2 = tasks[1].run.cid();
    let mut w = worker_for(tasks, &store).unwrap();
    assert!(w.plan.run.is_empty());
    assert_eq!(w.plan.resume_step, Some(2));
    w.run(&mut store, &add_one, &no_network).unwrap();
    assert_eq!(w.events.len(), 1);
    let r = replays(&w);
    assert_eq!(r.len(), 1);
    assert_eq!(r[0].len(), 2);
    assert!(r[0][0].same(&c1));
    assert!(r[0][1].same(&c2));
    assert!(w.events[0].replayed());
    assert_eq!(captured(&w), 0);
    assert_eq!(store.len(), 2);
}

#[test]
fn partial_replay() {
    let mut store = ReceiptStore::new();
    let t1 = vec![add_one_task(Value::Integer(1))];
    let mut first = worker_for(t1, &store).unwrap();
    first.run(&mut store, &add_one, &no_network).unwrap();

    let tasks = linear_workflow();
    let c1 = tasks[0].run.cid();
    let c2 = tasks[1].run.cid();
    let mut w = worker_for(tasks, &store).unwrap();
    w.run(&mut store, &add_one, &no_network).unwrap();
    assert_eq!(w.events.len(), 2);
    assert!(w.events[0].replayed());
    let r = replays(&w);
    assert_eq!(r[0].len(), 1);
    assert!(r[0][0].same(&c1));
    assert!(!w.events[1].replayed());
    assert_eq!(captured(&w), 1);
    assert_eq!(w.info.progress_count, 2);
    assert_eq!(store.find(&c2).unwrap().out, InstructionResult::Success(Value::Integer(3)));
}

#[test]
fn remote_resolution() {
    // a peer ran the first task and holds its receipt
    let mut peer_store = ReceiptStore::new();
    let t1 = vec![add_one_task(Value::Integer(1))];
    let mut peer = worker_for(t1, &peer_store).unwrap();
    peer.run(&mut peer_store, &add_one, &no_network).unwrap();

    // locally only the second task is in the workflow
    let t1 = add_one_task(Value::Integer(1));
    let c1 = t1.run.cid();
    let tasks = vec![add_one_task(await_ok(&c1))];
    let c2 = tasks[0].run.cid();
    let mut store = ReceiptStore::new();
    let mut w = worker_for(tasks, &store).unwrap();
    let asked = std::cell::Cell::new(0);
    let find = |c: &Cid| {
        asked.set(asked.get() + 1);
        peer_store.find(c)
    };
    w.run(&mut store, &add_one, &find).unwrap();
    assert_eq!(asked.get(), 1);
    assert!(store.contains(&c1));
    assert_eq!(store.find(&c2).unwrap().out, InstructionResult::Success(Value::Integer(3)));
    assert!(w.events.iter().any(|e| matches!(e, WorkerEvent::StoredRecord { .. })));
}

#[test]
fn unresolved_cid_fails_the_run() {
    let missing = Cid::of_encoding(&[1, 2, 3]);
    let tasks = vec![add_one_task(await_ok(&missing))];
    let c = tasks[0].run.cid();
    let mut store = ReceiptStore::new();
    let mut w = worker_for(tasks, &store).unwrap();
    assert_eq!(w.run(&mut store, &add_one, &no_network), Err(WorkerError::UnresolvedCid));
    assert!(!store.contains(&c));
    assert_eq!(captured(&w), 0);
    assert!(w.info.progress_count < w.info.num_tasks);
}

#[test]
fn empty_workflow_completes() {
    let mut store = ReceiptStore::new();
    let mut w = worker_for(vec![], &store).unwrap();
    assert!(w.plan.ran.is_empty());
    assert!(w.plan.run.is_empty());
    w.run(&mut store, &add_one, &no_network).unwrap();
    assert!(w.events.is_empty());
    assert_eq!(store.len(), 0);
}

#[test]
fn failing_task_stops_the_run() {
    let mut store = ReceiptStore::new();
    let tasks = linear_workflow();
    let c1 = tasks[0].run.cid();
    let mut w = worker_for(tasks, &store).unwrap();
    let fail_second = |m: &Vec<u8>, f: &String, a: &Vec<InstructionResult<Value>>| match a.as_slice() {
        [InstructionResult::Success(Value::Integer(2))] => None,
        _ => add_one(m, f, a),
    };
    assert_eq!(w.run(&mut store, &fail_second, &no_network), Err(WorkerError::TaskFailed));
    assert!(store.contains(&c1));
    assert_eq!(store.len(), 1);
    assert_eq!(w.info.progress_count, 1);
}

#[test]
fn unknown_operation_is_refused() {
    let mut t = add_one_task(Value::Integer(1));
    t.run.op = "ipfs/get".to_string();
    let mut store = ReceiptStore::new();
    let mut w = worker_for(vec![t], &store).unwrap();
    assert_eq!(w.run(&mut store, &add_one, &no_network), Err(WorkerError::UnknownOp));
}

#[test]
fn missing_module_is_refused() {
    let mut t = add_one_task(Value::Integer(1));
    t.run.resource = "ipfs://elsewhere".to_string();
    let mut store = ReceiptStore::new();
    let mut w = worker_for(vec![t], &store).unwrap();
    assert_eq!(w.run(&mut store, &add_one, &no_network), Err(WorkerError::ResourceUnavailable));
}

#[test]
fn resolution_order() {
    let store = ReceiptStore::new();
    let blob = Cid::of_encoding(&[5]);
    let tasks = vec![add_one_task(Value::Integer(1))];
    let mut w = worker_for(tasks, &store).unwrap();
    w.resources.entries.push((Resource::Cid(blob.clone()), vec![1, 2]));
    match w.resolve(&blob, &store) {
        Resolution::Found(r) => assert_eq!(r, InstructionResult::Success(Value::Bytes(vec![1, 2]))),
        Resolution::Missing => panic!("blob not found"),
    }
    w.linkmap.insert(blob.clone(), InstructionResult::Error(Value::Null));
    match w.resolve(&blob, &store) {
        Resolution::Found(r) => assert_eq!(r, InstructionResult::Error(Value::Null)),
        Resolution::Missing => panic!("result not found"),
    }
    assert!(matches!(w.resolve(&Cid::of_encoding(&[6]), &store), Resolution::Missing));
}

#[test]
fn progress_carries_over_a_restart() {
    let mut store = ReceiptStore::new();
    let mut infos = WorkflowStore::new();
    let tasks = linear_workflow();
    let wf = workflow_cid(&tasks);

    // first run: the second task fails
    let instructions: Vec<Cid> = tasks.iter().map(|t| t.run.cid()).collect();
    let awaits: Vec<Vec<Cid>> = tasks.iter().map(|t| parse_input(t.run.input.copy()).unwrap().awaits()).collect();
    let sched = schedule(&instructions, &awaits, &store).unwrap();
    let info = init_info(&mut infos, wf.clone(), 2, None, vec![]);
    let resources = ResourceCache { entries: vec![(Resource::Url(MODULE.to_string()), vec![0u8])] };
    let mut w = Worker::new(tasks, info, "test".to_string(), sched.plan, resources);
    let fail_second = |m: &Vec<u8>, f: &String, a: &Vec<InstructionResult<Value>>| match a.as_slice() {
        [InstructionResult::Success(Value::Integer(2))] => None,
        _ => add_one(m, f, a),
    };
    assert!(w.run(&mut store, &fail_second, &no_network).is_err());
    assert_eq!(w.info.progress_count, 1);
    infos.put(w.info.copy());

    // restart: the stored progress is picked up and completed
    let tasks = linear_workflow();
    let sched = schedule(&instructions, &awaits, &store).unwrap();
    let info = init_info(&mut infos, wf.clone(), 2, None, vec![]);
    assert_eq!(info.progress_count, 1);
    let resources = ResourceCache { entries: vec![(Resource::Url(MODULE.to_string()), vec![0u8])] };
    let mut w = Worker::new(tasks, info, "test".to_string(), sched.plan, resources);
    w.run(&mut store, &add_one, &no_network).unwrap();
    assert_eq!(w.info.progress_count, 2);
    assert_eq!(w.info.progress.len(), 2);
    infos.put(w.info.copy());
    assert_eq!(infos.find(&wf).unwrap().progress_count, 2);
}

fn await_error(c: &Cid) -> Value {
    Value::Dict(vec![("await/error".to_string(), Value::Link(c.clone()))])
}

fn fetch_module(url: &String) -> Option<Vec<u8>> {
    if url == MODULE {
        Some(vec![0u8, 97, 115, 109])
    } else {
        None
    }
}

#[test]
fn awaiting_a_failure_of_a_success_is_refused() {
    let mut store = ReceiptStore::new();
    let t1 = add_one_task(Value::Integer(1));
    let c1 = t1.run.cid();
    let tasks = vec![t1, add_one_task(await_error(&c1))];
    let mut w = worker_for(tasks, &store).unwrap();
    assert_eq!(w.run(&mut store, &add_one, &no_network), Err(WorkerError::AwaitMismatch));
    assert!(store.contains(&c1));
    assert_eq!(w.log.len(), 1);
}

#[test]
fn evaluator_sees_tagged_arguments() {
    let mut store = ReceiptStore::new();
    let mut w = worker_for(linear_workflow(), &store).unwrap();
    w.run(&mut store, &add_one, &no_network).unwrap();
    assert_eq!(w.log.len(), 2);
    assert_eq!(w.log[0].args, vec![InstructionResult::Just(Value::Integer(1))]);
    assert_eq!(w.log[1].args, vec![InstructionResult::Success(Value::Integer(2))]);
    assert_eq!(w.log[1].func, "add_one");
    assert_eq!(w.log[1].output, Value::Integer(3));
}

#[test]
fn failed_check_changes_nothing() {
    let mut t = add_one_task(Value::Integer(1));
    t.run.resource = "ipfs://elsewhere".to_string();
    let tasks = vec![add_one_task(Value::Integer(5)), t];
    let mut store = ReceiptStore::new();
    let mut w = worker_for(tasks, &store).unwrap();
    assert_eq!(w.run(&mut store, &add_one, &no_network), Err(WorkerError::ResourceUnavailable));
    assert!(w.events.is_empty());
    assert!(w.log.is_empty());
    assert_eq!(store.len(), 0);
}

#[test]
fn init_plans_fetches_and_names_the_run() {
    let store = ReceiptStore::new();
    let mut infos = WorkflowStore::new();
    let tasks = linear_workflow();
    let wf = workflow_cid(&tasks);
    let w = Worker::init(tasks, "named".to_string(), &store, &mut infos, &fetch_module).ok().unwrap();
    assert!(w.info.cid.same(&wf));
    assert_eq!(w.info.num_tasks, 2);
    assert_eq!(w.name, "named");
    assert_eq!(w.plan.run.len(), 2);
    assert_eq!(w.resources.entries.len(), 1);
    assert_eq!(w.info.resources.len(), 2);
    assert!(infos.find(&wf).is_some());
}

#[test]
fn init_refuses_unfetchable_modules_and_bad_inputs() {
    let store = ReceiptStore::new();
    let mut infos = WorkflowStore::new();
    let mut t = add_one_task(Value::Integer(1));
    t.run.resource = "ipfs://elsewhere".to_string();
    assert_eq!(
        Worker::init(vec![t], "n".to_string(), &store, &mut infos, &fetch_module).err(),
        Some(InitError::ResourceUnavailable)
    );
    let mut t = add_one_task(Value::Integer(1));
    t.run.input = Value::Integer(3);
    assert_eq!(
        Worker::init(vec![t], "n".to_string(), &store, &mut infos, &fetch_module).err(),
        Some(InitError::GraphBuildError)
    );
    assert!(infos.find(&workflow_cid(&vec![])).is_none());
}
