use homestar::cid::Cid;
use homestar::instruction_result::InstructionResult;
use homestar::receipt::Receipt;
use homestar::store::{Commit, ReceiptStore};
use homestar::value::Value;

fn receipt(n: u8, out: i64) -> Receipt {
    Receipt {
        instruction: Cid::of_encoding(&[n]),
        ran: Cid::of_encoding(&[n, n]),
        out: InstructionResult::Success(Value::Integer(out)),
        meta: Value::Null,
        issuer: None,
        prf: vec![],
    }
}

#[test]
fn committing_twice_changes_nothing() {
    let mut store = ReceiptStore::new();
    assert_eq!(store.commit(receipt(1, 2)), Commit::Added);
    assert_eq!(store.commit(receipt(1, 2)), Commit::Existing);
    assert_eq!(store.len(), 1);
    assert_eq!(store.find(&Cid::of_encoding(&[1])).unwrap().out, InstructionResult::Success(Value::Integer(2)));
}

#[test]
fn existing_receipt_wins() {
    let mut store = ReceiptStore::new();
    store.commit(receipt(1, 2));
    assert_eq!(store.commit(receipt(1, 5)), Commit::Existing);
    assert_eq!(store.find(&Cid::of_encoding(&[1])).unwrap().out, InstructionResult::Success(Value::Integer(2)));
}

#[test]
fn find_by_receipt_identifier() {
    let mut store = ReceiptStore::new();
    let r = receipt(3, 4);
    let rc = r.cid();
    store.commit(r);
    store.commit(receipt(4, 5));
    let found = store.find_by_receipt_cid(&rc).unwrap();
    assert!(found.instruction.same(&Cid::of_encoding(&[3])));
    assert!(store.find_by_receipt_cid(&Cid::of_encoding(&[9])).is_none());
    assert!(store.find(&Cid::of_encoding(&[9])).is_none());
}

#[test]
fn receipt_cid_changes_with_output() {
    assert!(!receipt(1, 2).cid().same(&receipt(1, 3).cid()));
    assert!(receipt(1, 2).cid().same(&receipt(1, 2).cid()));
}
