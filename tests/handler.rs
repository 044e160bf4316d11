use homestar::capsule::{CapsuleTag, PeerId};
use homestar::cid::Cid;
use homestar::codec::encode;
use homestar::event::{
    handle_info, Captured, Command, Event, HandlerState, QueryRecord, Replay, RequestResponseKey,
};
use homestar::instruction_result::InstructionResult;
use homestar::receipt::Receipt;
use homestar::store::{Commit, ReceiptStore};
use homestar::swarm_event::{dial_discovered, forget_closed_peer, on_gossip_receipt, Cookies, GossipError, Renewal, RenewalCache};
use homestar::value::Value;
use homestar::scheduler::TaskPlan;
use homestar::worker::{urls_to_fetch, ResourceCache, Worker, WorkerMessage};
use homestar::workflow::{indexed_resources, Instruction, Task};
use homestar::workflow_info::Resource;
use homestar::workflow_info::WorkflowInfo;

fn receipt(n: u8) -> Receipt {
    Receipt {
        instruction: Cid::of_encoding(&[n]),
        ran: Cid::of_encoding(&[n, 1]),
        out: InstructionResult::Success(Value::Integer(n as i64)),
        meta: Value::Null,
        issuer: None,
        prf: vec![],
    }
}

fn state(peers: usize, pubsub: bool) -> HandlerState {
    HandlerState { connected_peers: peers, pubsub_enabled: pubsub, receipt_quorum: 2, workflow_quorum: 1 }
}

#[test]
fn captured_receipt_is_notified_then_published() {
    let mut store = ReceiptStore::new();
    let r = receipt(1);
    let rc = r.cid();
    store.commit(r);
    let info = WorkflowInfo::new(Cid::of_encoding(&[9]), 1, None, vec![]);
    let ev = Event::CapturedReceipt(Captured::with(rc.clone(), info, Some(Value::Bool(false))));
    let cmds = handle_info(ev, &state(1, true), &store).unwrap();
    assert_eq!(cmds.len(), 4);
    assert!(matches!(&cmds[0], Command::Notify { metadata: Some(Value::Bool(false)), .. }));
    assert!(matches!(&cmds[1], Command::Gossip { .. }));
    assert!(matches!(&cmds[2], Command::Put(p) if p.request.capsule_tag == CapsuleTag::Receipt));
    assert!(matches!(&cmds[3], Command::Put(p) if p.request.capsule_tag == CapsuleTag::Workflow));

    let info = WorkflowInfo::new(Cid::of_encoding(&[9]), 1, None, vec![]);
    let ev = Event::CapturedReceipt(Captured::with(rc, info, None));
    let cmds = handle_info(ev, &state(0, true), &store).unwrap();
    assert_eq!(cmds.len(), 1);
}

#[test]
fn replayed_receipts_are_notified_then_gossiped() {
    let mut store = ReceiptStore::new();
    store.commit(receipt(1));
    store.commit(receipt(2));
    let ev = Event::ReplayReceipts(Replay::with(vec![Cid::of_encoding(&[2]), Cid::of_encoding(&[1])], None));
    let cmds = handle_info(ev, &state(1, true), &store).unwrap();
    assert_eq!(cmds.len(), 4);
    match &cmds[0] {
        Command::Notify { receipt, .. } => assert!(receipt.instruction.same(&Cid::of_encoding(&[2]))),
        other => panic!("unexpected command {:?}", other),
    }
    match &cmds[3] {
        Command::Gossip { payload } => assert_eq!(payload, &encode(&receipt(1).record_value())),
        other => panic!("unexpected command {:?}", other),
    }
    let ev = Event::ReplayReceipts(Replay::with(vec![Cid::of_encoding(&[2])], None));
    assert_eq!(handle_info(ev, &state(1, false), &store).unwrap().len(), 1);
}

#[test]
fn queries_become_commands() {
    let store = ReceiptStore::new();
    let c = Cid::of_encoding(&[3]);
    let ev = Event::FindRecord(QueryRecord::with(c.clone(), CapsuleTag::Receipt, Some(11)));
    match &handle_info(ev, &state(1, false), &store).unwrap()[0] {
        Command::GetRecord { key, request, sender } => {
            assert_eq!(key, &c.to_bytes());
            assert_eq!(request.capsule_tag, CapsuleTag::Receipt);
            assert_eq!(*sender, Some(11));
        }
        other => panic!("unexpected command {:?}", other),
    }
    let ev = Event::RemoveRecord(QueryRecord::with(c.clone(), CapsuleTag::Receipt, None));
    assert!(matches!(&handle_info(ev, &state(1, false), &store).unwrap()[0], Command::RemoveRecord { .. }));
    let ev = Event::Providers {
        peers: vec![PeerId("a".to_string()), PeerId("b".to_string())],
        key: RequestResponseKey::new(c, CapsuleTag::Workflow),
        sender: 5,
    };
    let cmds = handle_info(ev, &state(1, false), &store).unwrap();
    assert_eq!(cmds.len(), 2);
    assert!(matches!(&cmds[1], Command::SendRequest(p) if p.peer.0 == "b" && p.sender == 5));
    let cmds = handle_info(Event::Shutdown(4), &state(1, false), &store).unwrap();
    assert!(matches!(&cmds[0], Command::Shutdown { reply_to: 4 }));
}

#[test]
fn gossiped_receipts_are_stored_once() {
    let mut store = ReceiptStore::new();
    let payload = encode(&receipt(1).record_value());
    assert_eq!(on_gossip_receipt(&payload, &mut store), Ok(Commit::Added));
    assert_eq!(on_gossip_receipt(&payload, &mut store), Ok(Commit::Existing));
    assert_eq!(store.len(), 1);
    assert_eq!(on_gossip_receipt(&[0xff], &mut store), Err(GossipError::MalformedEncoding));
    assert_eq!(on_gossip_receipt(&encode(&Value::Null), &mut store), Err(GossipError::InvalidReceipt));
}

#[test]
fn configured_peers_stay_in_the_routing_table() {
    let a = PeerId("a".to_string());
    let configured = vec![None, Some(PeerId("a".to_string()))];
    assert!(!forget_closed_peer(&a, &configured));
    assert!(forget_closed_peer(&PeerId("b".to_string()), &configured));
}

#[test]
fn renewals_expire_in_order() {
    let mut cache = RenewalCache::new();
    cache.schedule(PeerId("a".to_string()), Renewal::Discover, 10);
    cache.schedule(PeerId("b".to_string()), Renewal::Register, 30);
    cache.schedule(PeerId("c".to_string()), Renewal::Register, 5);
    let due = cache.expire(10);
    assert_eq!(due.len(), 2);
    assert_eq!(due[0].0 .0, "a");
    assert_eq!(due[0].1, Renewal::Discover);
    assert_eq!(due[1].0 .0, "c");
    assert_eq!(cache.entries.len(), 1);
    assert!(cache.expire(29).is_empty());
    assert_eq!(cache.expire(30).len(), 1);
}

fn task(url: &str) -> Task {
    Task {
        run: Instruction {
            resource: url.to_string(),
            op: "wasm/run".to_string(),
            input: Value::Null,
            nonce: vec![],
        },
        prf: vec![],
    }
}

#[test]
fn modules_are_fetched_once() {
    let tasks = vec![task("ipfs://a"), task("ipfs://b"), task("ipfs://a")];
    let urls = urls_to_fetch(&tasks, &vec![vec![0, 2], vec![1]]);
    assert_eq!(urls, vec!["ipfs://a".to_string(), "ipfs://b".to_string()]);
    assert!(urls_to_fetch(&tasks, &vec![]).is_empty());
}

#[test]
fn results_are_stored_as_bytes() {
    let r = InstructionResult::Error(Value::Text("boom".to_string()));
    let bytes = r.copy().to_bytes();
    assert_eq!(InstructionResult::from_bytes(&bytes), Some(r));
    assert_eq!(InstructionResult::from_bytes(&encode(&Value::Integer(1))), None);
}

#[test]
fn dropped_worker_names_its_workflow() {
    let info = WorkflowInfo::new(Cid::of_encoding(&[9]), 0, None, vec![]);
    let plan = TaskPlan { ran: vec![], run: vec![], resume_step: None };
    let w = Worker::new(vec![], info, "w".to_string(), plan, ResourceCache { entries: vec![] });
    match w.dropped_message() {
        WorkerMessage::Dropped(c) => assert!(c.same(&Cid::of_encoding(&[9]))),
    }
}

#[test]
fn each_instruction_is_indexed_with_its_module() {
    let tasks = vec![task("ipfs://a"), task("ipfs://b")];
    let ix = indexed_resources(&tasks);
    assert_eq!(ix.len(), 2);
    assert!(ix[1].0.same(&tasks[1].run.cid()));
    assert!(matches!(&ix[1].1[..], [Resource::Url(u)] if u == "ipfs://b"));
}

#[test]
fn discovered_peers_are_dialled_within_the_limit() {
    let me = PeerId("me".to_string());
    let connected = vec![PeerId("c".to_string())];
    let registered: Vec<PeerId> = ["a", "me", "c", "a", "b", "d"].iter().map(|s| PeerId(s.to_string())).collect();
    let dial = dial_discovered(&registered, &me, &connected, 3);
    assert_eq!(dial.iter().map(|p| p.0.as_str()).collect::<Vec<_>>(), vec!["a", "b"]);
    let dial = dial_discovered(&registered, &me, &connected, 10);
    assert_eq!(dial.iter().map(|p| p.0.as_str()).collect::<Vec<_>>(), vec!["a", "b", "d"]);
    assert!(dial_discovered(&registered, &me, &connected, 1).is_empty());
}

#[test]
fn latest_cookie_is_kept() {
    let mut cookies = Cookies::new();
    let node = PeerId("r".to_string());
    assert!(cookies.cookie(&node).is_none());
    cookies.keep(PeerId("r".to_string()), vec![1]);
    cookies.keep(PeerId("r".to_string()), vec![2]);
    assert_eq!(cookies.cookie(&node), Some(vec![2]));
}
