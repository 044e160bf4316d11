use homestar::capsule::{CapsuleTag, PeerId};
use homestar::cid::Cid;
use homestar::event::{publish_and_notify, quorum_of, replay_notify, PendingQueries, PublishError, Quorum, RequestResponseKey};
use homestar::instruction_result::InstructionResult;
use homestar::receipt::Receipt;
use homestar::store::ReceiptStore;
use homestar::swarm_event::{
    accepts_peer, answer_request, may_connect, on_providers_found, on_put_record, on_record_found,
    on_record_not_found, on_response, LookupFailure, PutNotice, PutOutcome, RequestError, ResponseError,
};
use homestar::value::Value;
use homestar::workflow_info::WorkflowInfo;

fn receipt(n: u8) -> Receipt {
    Receipt {
        instruction: Cid::of_encoding(&[n]),
        ran: Cid::of_encoding(&[n, 0]),
        out: InstructionResult::Success(Value::Integer(n as i64)),
        meta: Value::Null,
        issuer: None,
        prf: vec![],
    }
}

fn peer(s: &str) -> PeerId {
    PeerId(s.to_string())
}

#[test]
fn quorum_zero_means_one() {
    assert_eq!(quorum_of(0), Quorum::One);
    assert_eq!(quorum_of(3), Quorum::N(3));
}

#[test]
fn publish_without_peers_sends_nothing() {
    let mut store = ReceiptStore::new();
    let r = receipt(1);
    let rc = r.cid();
    store.commit(r);
    let mut info = WorkflowInfo::new(Cid::of_encoding(&[9]), 1, None, vec![]);
    let p = publish_and_notify(&rc, &mut info, &store, 0, true, 2, 2).unwrap();
    assert!(p.gossip.is_none());
    assert!(p.puts.is_empty());
    assert_eq!(info.progress_count, 0);
}

#[test]
fn publish_with_peers_puts_receipt_and_progress() {
    let mut store = ReceiptStore::new();
    let r = receipt(1);
    let rc = r.cid();
    let capsule = r.capsule();
    store.commit(r);
    let mut info = WorkflowInfo::new(Cid::of_encoding(&[9]), 1, None, vec![]);
    let p = publish_and_notify(&rc, &mut info, &store, 2, true, 0, 3).unwrap();
    assert!(p.gossip.is_some());
    assert_eq!(p.puts.len(), 2);
    assert_eq!(p.puts[0].key, Cid::of_encoding(&[1]).to_bytes());
    assert_eq!(p.puts[0].value, capsule);
    assert_eq!(p.puts[0].quorum, Quorum::One);
    assert_eq!(p.puts[1].key, Cid::of_encoding(&[9]).to_bytes());
    assert_eq!(p.puts[1].quorum, Quorum::N(3));
    assert_eq!(p.puts[1].value, info.capsule());
    assert_eq!(info.progress_count, 1);

    let p = publish_and_notify(&rc, &mut info, &store, 2, false, 0, 3).unwrap();
    assert!(p.gossip.is_none());
    assert_eq!(info.progress_count, 1);
}

#[test]
fn publish_of_unknown_receipt_fails() {
    let store = ReceiptStore::new();
    let mut info = WorkflowInfo::new(Cid::of_encoding(&[9]), 1, None, vec![]);
    assert_eq!(
        publish_and_notify(&Cid::of_encoding(&[1]), &mut info, &store, 1, true, 1, 1).err(),
        Some(PublishError::ReceiptNotFound)
    );
}

#[test]
fn replay_keeps_the_order_asked() {
    let mut store = ReceiptStore::new();
    store.commit(receipt(1));
    store.commit(receipt(2));
    let asked = vec![Cid::of_encoding(&[2]), Cid::of_encoding(&[5]), Cid::of_encoding(&[1])];
    let found = replay_notify(&asked, &store);
    assert_eq!(found.len(), 2);
    assert!(found[0].instruction.same(&Cid::of_encoding(&[2])));
    assert!(found[1].instruction.same(&Cid::of_encoding(&[1])));
}

#[test]
fn quorum_failure_notification() {
    let mut pending = PendingQueries::new();
    let rc = Cid::of_encoding(&[1]);
    pending.insert(7, RequestResponseKey::new(rc.clone(), CapsuleTag::Receipt), None);
    let notice = on_put_record(&mut pending, 7, PutOutcome::QuorumFailed { stored_to: vec![peer("a")] }, 3, 1, 4);
    match notice {
        Some(PutNotice::ReceiptQuorumFailure { cid, quorum, connected_peers, stored_to_peers }) => {
            assert!(cid.same(&rc));
            assert_eq!(quorum, 3);
            assert_eq!(connected_peers, 4);
            assert_eq!(stored_to_peers.len(), 1);
            assert_eq!(stored_to_peers[0].0, "a");
        }
        other => panic!("unexpected notice {:?}", other),
    }
    // the entry is gone: a second completion is not reported
    assert!(on_put_record(&mut pending, 7, PutOutcome::Stored, 3, 1, 4).is_none());
}

#[test]
fn quorum_success_uses_the_workflow_quorum() {
    let mut pending = PendingQueries::new();
    pending.insert(1, RequestResponseKey::new(Cid::of_encoding(&[9]), CapsuleTag::Workflow), None);
    match on_put_record(&mut pending, 1, PutOutcome::Stored, 3, 2, 4) {
        Some(PutNotice::WorkflowInfoQuorumSuccess { quorum, .. }) => assert_eq!(quorum, 2),
        other => panic!("unexpected notice {:?}", other),
    }
    pending.insert(2, RequestResponseKey::new(Cid::of_encoding(&[9]), CapsuleTag::Workflow), None);
    assert!(on_put_record(&mut pending, 2, PutOutcome::Failed, 3, 2, 4).is_none());
}

#[test]
fn found_record_goes_to_the_waiting_sender() {
    let mut pending = PendingQueries::new();
    let r = receipt(1);
    pending.insert(5, RequestResponseKey::new(r.instruction.clone(), CapsuleTag::Receipt), Some(42));
    let (sender, res) = on_record_found(&mut pending, 5, &r.capsule(), Some(peer("b"))).unwrap();
    assert_eq!(sender, Some(42));
    assert!(res.is_ok());
    assert!(on_record_found(&mut pending, 5, &r.capsule(), None).is_none());
}

#[test]
fn failed_workflow_lookup_falls_back_to_providers() {
    let mut pending = PendingQueries::new();
    pending.insert(1, RequestResponseKey::new(Cid::of_encoding(&[9]), CapsuleTag::Workflow), Some(3));
    pending.insert(2, RequestResponseKey::new(Cid::of_encoding(&[1]), CapsuleTag::Receipt), Some(4));
    match on_record_not_found(&mut pending, 1) {
        Some(LookupFailure::FindProviders { key, sender }) => {
            assert_eq!(key.capsule_tag, CapsuleTag::Workflow);
            assert_eq!(sender, Some(3));
        }
        other => panic!("unexpected follow-up {:?}", other),
    }
    match on_record_not_found(&mut pending, 2) {
        Some(LookupFailure::NotFound { sender }) => assert_eq!(sender, Some(4)),
        other => panic!("unexpected follow-up {:?}", other),
    }
    assert!(on_record_not_found(&mut pending, 2).is_none());
}

#[test]
fn providers_other_than_self_are_asked() {
    let mut pending = PendingQueries::new();
    pending.insert(1, RequestResponseKey::new(Cid::of_encoding(&[9]), CapsuleTag::Workflow), Some(8));
    let me = peer("me");
    // only this node provides it: nothing happens and the query stays
    assert!(on_providers_found(&mut pending, 1, vec![peer("me")], &me).is_empty());
    let reqs = on_providers_found(&mut pending, 1, vec![peer("x"), peer("me"), peer("y")], &me);
    assert_eq!(reqs.len(), 2);
    assert_eq!(reqs[0].peer.0, "x");
    assert_eq!(reqs[1].peer.0, "y");
    assert_eq!(reqs[0].sender, 8);
    assert!(on_providers_found(&mut pending, 1, vec![peer("z")], &me).is_empty());
}

#[test]
fn peers_of_other_protocols_are_ignored() {
    assert!(accepts_peer(&"homestar/0.0.1".to_string()));
    assert!(!accepts_peer(&"ipfs/0.1.0".to_string()));
    assert!(may_connect(2, 3));
    assert!(!may_connect(3, 3));
}

#[test]
fn requests_are_answered_or_refused() {
    let info = WorkflowInfo::new(Cid::of_encoding(&[9]), 1, None, vec![]);
    assert_eq!(answer_request(CapsuleTag::Workflow, Some(&info)).unwrap(), info.capsule());
    assert_eq!(answer_request(CapsuleTag::Workflow, None), Err(RequestError::Timeout));
    assert_eq!(answer_request(CapsuleTag::Receipt, Some(&info)), Err(RequestError::Unsupported));

    let key = RequestResponseKey::new(Cid::of_encoding(&[9]), CapsuleTag::Workflow);
    let got = on_response(&key, &info.capsule(), peer("p")).unwrap();
    assert!(got.cid.same(&info.cid));
    let r = receipt(9);
    let key = RequestResponseKey::new(Cid::of_encoding(&[9]), CapsuleTag::Workflow);
    assert_eq!(on_response(&key, &r.capsule(), peer("p")).err(), Some(ResponseError::UnexpectedReceipt));
}

#[test]
fn found_record_of_the_wrong_kind_is_refused() {
    let mut pending = PendingQueries::new();
    let info = WorkflowInfo::new(Cid::of_encoding(&[9]), 1, None, vec![]);
    pending.insert(6, RequestResponseKey::new(info.cid.clone(), CapsuleTag::Receipt), Some(1));
    let (_, res) = on_record_found(&mut pending, 6, &info.capsule(), None).unwrap();
    assert_eq!(res.err(), Some(homestar::capsule::CapsuleError::InvalidCapsule));
}
