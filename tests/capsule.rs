use homestar::capsule::{decode_capsule, CapsuleError, DecodedRecord, PeerId};
use homestar::cid::Cid;
use homestar::codec::encode;
use homestar::instruction_result::InstructionResult;
use homestar::receipt::Receipt;
use homestar::value::Value;
use homestar::workflow_info::{Resource, WorkflowInfo};

fn receipt() -> Receipt {
    Receipt {
        instruction: Cid::of_encoding(&[1]),
        ran: Cid::of_encoding(&[2]),
        out: InstructionResult::Success(Value::Integer(2)),
        meta: Value::Dict(vec![("op".to_string(), Value::Text("add_one".to_string()))]),
        issuer: Some("did:key:z6Mk".to_string()),
        prf: vec![Cid::of_encoding(&[3])],
    }
}

fn info() -> WorkflowInfo {
    let mut i = WorkflowInfo::new(
        Cid::of_encoding(&[9]),
        3,
        Some("flow".to_string()),
        vec![(Cid::of_encoding(&[1]), vec![Resource::Url("ipfs://m".to_string()), Resource::Cid(Cid::of_encoding(&[4]))])],
    );
    i.increment_progress(Cid::of_encoding(&[5]));
    i
}

#[test]
fn receipt_capsule_round_trip() {
    let r = receipt();
    let bytes = r.capsule();
    match decode_capsule(&r.instruction, Some(PeerId("peer".to_string())), &bytes).unwrap() {
        DecodedRecord::Receipt { peer, receipt } => {
            assert_eq!(peer.unwrap().0, "peer");
            assert!(receipt.cid().same(&r.cid()));
            assert_eq!(receipt.out, r.out);
            assert_eq!(receipt.meta, r.meta);
            assert_eq!(receipt.issuer, r.issuer);
            assert_eq!(receipt.prf, r.prf);
        }
        other => panic!("unexpected record {:?}", other),
    }
}

#[test]
fn workflow_capsule_round_trip() {
    let i = info();
    let bytes = i.capsule();
    match decode_capsule(&i.cid, None, &bytes).unwrap() {
        DecodedRecord::Workflow { peer, info } => {
            assert!(peer.is_none());
            assert!(info.cid.same(&i.cid));
            assert_eq!(info.name, i.name);
            assert_eq!(info.num_tasks, 3);
            assert_eq!(info.progress_count, 1);
            assert_eq!(info.progress, i.progress);
            assert_eq!(info.resources.len(), 1);
            assert_eq!(info.resources[0].1.len(), 2);
        }
        other => panic!("unexpected record {:?}", other),
    }
}

#[test]
fn capsule_for_another_entity_is_refused() {
    let r = receipt();
    let bytes = r.capsule();
    assert_eq!(
        decode_capsule(&Cid::of_encoding(&[7]), None, &bytes).err(),
        Some(CapsuleError::CapsuleCidMismatch)
    );
}

#[test]
fn malformed_capsules_are_refused() {
    assert_eq!(
        decode_capsule(&Cid::of_encoding(&[1]), None, &[0xff]).err(),
        Some(CapsuleError::MalformedEncoding)
    );
    let other_tag = encode(&Value::Dict(vec![("thing".to_string(), Value::Null)]));
    assert_eq!(
        decode_capsule(&Cid::of_encoding(&[1]), None, &other_tag).err(),
        Some(CapsuleError::InvalidCapsule)
    );
    let bad_entity = encode(&Value::Dict(vec![("receipt".to_string(), Value::Integer(1))]));
    assert_eq!(
        decode_capsule(&Cid::of_encoding(&[1]), None, &bad_entity).err(),
        Some(CapsuleError::InvalidCapsule)
    );
}

#[test]
fn progress_counts_each_receipt_once_up_to_the_number_of_tasks() {
    let mut i = info();
    assert!(!i.increment_progress(Cid::of_encoding(&[5])));
    assert!(i.increment_progress(Cid::of_encoding(&[6])));
    assert!(i.increment_progress(Cid::of_encoding(&[7])));
    assert!(!i.increment_progress(Cid::of_encoding(&[8])));
    assert_eq!(i.progress_count, 3);
    assert_eq!(i.progress.len(), 3);
}

#[test]
fn well_formed_progress() {
    let mut i = info();
    assert!(i.is_well_formed());
    i.progress.push(Cid::of_encoding(&[5]));
    i.progress_count = 2;
    assert!(!i.is_well_formed());
    i.progress.pop();
    assert!(!i.is_well_formed());
}
