//! Capsules: the form in which receipts and workflow information travel as
//! records of the distributed store and as request/response payloads, a
//! single-entry map from the capsule tag to the entity.
use vstd::prelude::*;
use crate::cid::{Cid, MAX_CID_LEN};
use crate::codec::{
    bounded, canonical, canonical_dict, canonical_list, canonical_encoding, chars_lt, decode, decode_val, encode,
    lemma_bounded_norm, lemma_norm_canonical, lemma_norm_dict, lemma_norm_list, lemma_sort_sorted, norm, norm_dict,
    norm_list, sort_entries,
    keys_ascending, lemma_canonical_dict, lemma_canonical_list, lemma_decode_encode, lemma_utf8_len,
};
use crate::instruction_result::{lemma_result_round_trip, result_to_val, InstructionResult};
use crate::receipt::{
    invocation_entries, issuer_val, key_instruction, key_iss, key_meta, key_out, key_prf, key_ran,
    links_from_val, links_val, link_targets, receipt_from_val, receipt_tag, record_val, text, Receipt,
    ReceiptModel,
};
use crate::value::{Val, Value, view_entries, lemma_view_entries};
use crate::workflow_info::{
    indexed_entry_from_val, indexed_entry_val, indexed_from_val, indexed_val, info_from_val, info_val,
    key_cid, key_name, key_num_tasks, key_progress, key_progress_count, key_resources, name_val,
    resource_from_val, resource_val, resources_from_val, resources_val, workflow_tag, ResourceModel,
    WorkflowInfo, WorkflowInfoModel,
};

verus! {

/// A peer of the mesh, by its identity's text form.
#[derive(Debug)]
pub struct PeerId(pub String);

impl PeerId {
    /// Whether two peers are the same.
    pub fn same(&self, other: &PeerId) -> (r: bool)
        ensures
            r == (self.0@ == other.0@),
    {
        self.0 == other.0
    }

    /// A copy of this peer's identity.
    pub fn copy(&self) -> (r: PeerId)
        ensures
            r.0@ == self.0@,
    {
        PeerId(self.0.clone())
    }
}

/// Which entity a capsule holds.
#[derive(Debug, Clone, Copy, PartialEq, Eq)]
pub enum CapsuleTag {
    Receipt,
    Workflow,
}

/// Why bytes are not a capsule of the expected entity.
#[derive(Debug, Clone, Copy, PartialEq, Eq)]
pub enum CapsuleError {
    /// The bytes are not a canonical encoding.
    MalformedEncoding,
    /// The value is not a capsule of a known tag over a well-formed entity.
    InvalidCapsule,
    /// The entity inside is not the one that was asked for.
    CapsuleCidMismatch,
}

/// The entity of a capsule, in mathematical form.
pub enum CapsuleModel {
    Receipt(ReceiptModel),
    Workflow(WorkflowInfoModel),
}

/// A capsule as a value.
pub open spec fn capsule_val(tag: Seq<char>, entity: Val) -> Val {
    Val::Dict(seq![(tag, entity)])
}

/// The bytes of a receipt's capsule.
pub open spec fn receipt_capsule(m: ReceiptModel) -> Seq<u8> {
    canonical_encoding(capsule_val(receipt_tag(), record_val(m)))
}

/// The bytes of a workflow information capsule.
pub open spec fn info_capsule(m: WorkflowInfoModel) -> Seq<u8> {
    canonical_encoding(capsule_val(workflow_tag(), info_val(m)))
}

/// What decoding a capsule that should hold the entity named `cid` gives:
/// a receipt must answer the instruction `cid`, workflow information must
/// belong to the workflow `cid`.
pub open spec fn decode_capsule_spec(cid: Seq<u8>, bytes: Seq<u8>) -> Result<CapsuleModel, CapsuleError> {
    match decode_val(bytes) {
        None => Err(CapsuleError::MalformedEncoding),
        Some(v) => match v {
            Val::Dict(d) => if d.len() == 1 && d[0].0 == receipt_tag() {
                match receipt_from_val(d[0].1) {
                    Some(m) => if m.instruction == cid {
                        Ok(CapsuleModel::Receipt(m))
                    } else {
                        Err(CapsuleError::CapsuleCidMismatch)
                    },
                    None => Err(CapsuleError::InvalidCapsule),
                }
            } else if d.len() == 1 && d[0].0 == workflow_tag() {
                match info_from_val(d[0].1) {
                    Some(m) => if m.cid == cid {
                        Ok(CapsuleModel::Workflow(m))
                    } else {
                        Err(CapsuleError::CapsuleCidMismatch)
                    },
                    None => Err(CapsuleError::InvalidCapsule),
                }
            } else {
                Err(CapsuleError::InvalidCapsule)
            },
            _ => Err(CapsuleError::InvalidCapsule),
        },
    }
}

/// A record read from a capsule, with the peer it came from, if known.
#[derive(Debug)]
pub enum DecodedRecord {
    Receipt { peer: Option<PeerId>, receipt: Receipt },
    Workflow { peer: Option<PeerId>, info: WorkflowInfo },
}

impl DecodedRecord {
    /// The entity, in mathematical form.
    pub open spec fn model(&self) -> CapsuleModel {
        match self {
            DecodedRecord::Receipt { receipt, .. } => CapsuleModel::Receipt(receipt@),
            DecodedRecord::Workflow { info, .. } => CapsuleModel::Workflow(info@),
        }
    }

    /// The peer it came from.
    pub open spec fn peer(&self) -> Option<PeerId> {
        match self {
            DecodedRecord::Receipt { peer, .. } => *peer,
            DecodedRecord::Workflow { peer, .. } => *peer,
        }
    }
}

fn single_entry(tag: &str, entity: Value) -> (r: Value)
    ensures
        r@ == capsule_val(tag@, entity@),
{
    let mut entries: Vec<(String, Value)> = Vec::new();
    entries.push((text(tag), entity));
    proof {
        lemma_view_entries(entries@);
        assert(view_entries(entries@) =~= seq![(tag@, entity@)]);
    }
    Value::Dict(entries)
}

impl Receipt {
    /// The receipt's capsule.
    pub fn capsule(&self) -> (r: Vec<u8>)
        ensures
            r@ == receipt_capsule(self@),
    {
        proof {
            reveal_strlit("receipt");
            assert("receipt"@ =~= receipt_tag());
        }
        encode(&single_entry("receipt", self.record_value()))
    }
}

impl WorkflowInfo {
    /// The workflow information's capsule.
    pub fn capsule(&self) -> (r: Vec<u8>)
        ensures
            r@ == info_capsule(self@),
    {
        proof {
            reveal_strlit("workflow");
            assert("workflow"@ =~= workflow_tag());
        }
        encode(&single_entry("workflow", self.to_value()))
    }
}

/// Reads a capsule that should hold the entity named `cid`, received from
/// `peer` if known.
pub fn decode_capsule(cid: &Cid, peer: Option<PeerId>, bytes: &[u8]) -> (r: Result<DecodedRecord, CapsuleError>)
    ensures
        match r {
            Ok(rec) => decode_capsule_spec(cid@, bytes@) == Ok::<CapsuleModel, CapsuleError>(rec.model())
                && rec.peer() == peer,
            Err(e) => decode_capsule_spec(cid@, bytes@) == Err::<CapsuleModel, CapsuleError>(e),
        },
{
    proof {
        reveal_strlit("receipt");
        reveal_strlit("workflow");
        assert("receipt"@ =~= receipt_tag());
        assert("workflow"@ =~= workflow_tag());
        assert(receipt_tag() != workflow_tag()) by {
            assert(receipt_tag()[0] != workflow_tag()[0]);
        }
    }
    let v = match decode(bytes) {
        Ok(v) => v,
        Err(_) => {
            return Err(CapsuleError::MalformedEncoding);
        },
    };
    let ghost vv = v@;
    let mut d = match v {
        Value::Dict(d) => d,
        _ => {
            return Err(CapsuleError::InvalidCapsule);
        },
    };
    proof {
        lemma_view_entries(d@);
    }
    assert(vv == Val::Dict(view_entries(d@)));
    if d.len() != 1 {
        return Err(CapsuleError::InvalidCapsule);
    }
    let (tag, entity) = d.pop().unwrap();
    if tag == text("receipt") {
        match Receipt::from_value(entity) {
            Some(receipt) => if receipt.instruction.same(cid) {
                Ok(DecodedRecord::Receipt { peer, receipt })
            } else {
                Err(CapsuleError::CapsuleCidMismatch)
            },
            None => Err(CapsuleError::InvalidCapsule),
        }
    } else if tag == text("workflow") {
        match WorkflowInfo::from_value(entity) {
            Some(info) => if info.cid.same(cid) {
                Ok(DecodedRecord::Workflow { peer, info })
            } else {
                Err(CapsuleError::CapsuleCidMismatch)
            },
            None => Err(CapsuleError::InvalidCapsule),
        }
    } else {
        Err(CapsuleError::InvalidCapsule)
    }
}

} // verus!

verus! {

proof fn lemma_chars_lt_prefix(a: Seq<char>, b: Seq<char>)
    requires
        b.len() > 0,
    ensures
        chars_lt(a, a + b),
    decreases a.len(),
{
    if a.len() > 0 {
        let ab = a + b;
        assert(ab.subrange(1, ab.len() as int) =~= a.subrange(1, a.len() as int) + b);
        lemma_chars_lt_prefix(a.subrange(1, a.len() as int), b);
    }
}

proof fn lemma_text_canonical(s: Seq<char>)
    requires
        s.len() <= 0x1000_0000_0000_0000,
    ensures
        canonical(Val::Text(s)),
{
    lemma_utf8_len(s);
}

/// What a receipt needs for its capsule to read back: canonical metadata
/// and output, identifiers and issuer of a size that a value can hold.
pub open spec fn receipt_encodable(m: ReceiptModel) -> bool {
    &&& canonical(m.meta)
    &&& canonical(m.out.spec_inner())
    &&& m.instruction.len() <= MAX_CID_LEN
    &&& m.ran.len() <= MAX_CID_LEN
    &&& forall|i: int| 0 <= i < m.prf.len() ==> (#[trigger] m.prf[i]).len() <= MAX_CID_LEN
    &&& m.prf.len() <= u64::MAX
    &&& (m.issuer matches Some(s) ==> s.len() <= 0x1000_0000_0000_0000)
}

/// What workflow information needs for its capsule to read back:
/// identifiers, names and lists of a size that a value can hold.
pub open spec fn info_encodable(m: WorkflowInfoModel) -> bool {
    &&& m.cid.len() <= MAX_CID_LEN
    &&& (m.name matches Some(s) ==> s.len() <= 0x1000_0000_0000_0000)
    &&& m.num_tasks <= u32::MAX
    &&& m.progress_count <= u32::MAX
    &&& m.progress.len() <= u64::MAX
    &&& forall|i: int| 0 <= i < m.progress.len() ==> (#[trigger] m.progress[i]).len() <= MAX_CID_LEN
    &&& m.resources.len() <= u64::MAX
    &&& forall|i: int|
        0 <= i < m.resources.len() ==> (#[trigger] m.resources[i]).0.len() <= MAX_CID_LEN
            && m.resources[i].1.len() <= u64::MAX && forall|j: int|
            0 <= j < m.resources[i].1.len() ==> match #[trigger] m.resources[i].1[j] {
                ResourceModel::Url(u) => u.len() <= 0x1000_0000_0000_0000,
                ResourceModel::Cid(c) => c.len() <= MAX_CID_LEN,
            }
}

proof fn lemma_links_canonical(p: Seq<Seq<u8>>)
    requires
        p.len() <= u64::MAX,
        forall|i: int| 0 <= i < p.len() ==> (#[trigger] p[i]).len() <= MAX_CID_LEN,
    ensures
        canonical(Val::List(links_val(p))),
        links_from_val(links_val(p)) == Some(p),
{
    let l = links_val(p);
    assert forall|i: int| 0 <= i < l.len() implies canonical(#[trigger] l[i]) by {
        assert(l[i] == Val::Link(p[i]));
    }
    lemma_canonical_list(l);
    assert(link_targets(l) =~= p);
}

proof fn lemma_capsule_canonical(tag: Seq<char>, entity: Val)
    requires
        tag.len() <= 16,
        canonical(entity),
    ensures
        canonical(capsule_val(tag, entity)),
{
    let d = seq![(tag, entity)];
    lemma_utf8_len(tag);
    lemma_canonical_dict(d);
}

/// A receipt's capsule reads back as that receipt, answering its instruction.
pub proof fn lemma_receipt_capsule_round_trip(m: ReceiptModel)
    requires
        receipt_encodable(m),
    ensures
        decode_capsule_spec(m.instruction, receipt_capsule(m)) == Ok::<CapsuleModel, CapsuleError>(
            CapsuleModel::Receipt(m),
        ),
{
    let d = seq![(key_instruction(), Val::Link(m.instruction))] + invocation_entries(m);
    assert(record_val(m) == Val::Dict(d));
    // keys in order
    reveal_with_fuel(chars_lt, 3);
    assert(chars_lt(key_instruction(), key_iss()));
    assert(chars_lt(key_iss(), key_meta()));
    assert(chars_lt(key_meta(), key_out()));
    assert(chars_lt(key_out(), key_prf()));
    assert(chars_lt(key_prf(), key_ran()));
    assert(keys_ascending(d));
    // entries canonical
    lemma_links_canonical(m.prf);
    let tag = match m.out {
        InstructionResult::Success(_) => crate::instruction_result::ok_tag(),
        InstructionResult::Error(_) => crate::instruction_result::error_tag(),
        InstructionResult::Just(_) => crate::instruction_result::just_tag(),
    };
    let items = seq![Val::Text(tag), m.out.spec_inner()];
    assert(result_to_val(m.out) == Val::List(items));
    lemma_text_canonical(tag);
    assert forall|i: int| 0 <= i < items.len() implies canonical(#[trigger] items[i]) by {}
    lemma_canonical_list(items);
    if let Some(s) = m.issuer {
        lemma_text_canonical(s);
    }
    assert(canonical(issuer_val(m.issuer)));
    assert forall|i: int| 0 <= i < d.len() implies vstd::utf8::encode_utf8((#[trigger] d[i]).0).len()
        <= u64::MAX && canonical(d[i].1) by {
        lemma_utf8_len(d[i].0);
    }
    lemma_canonical_dict(d);
    assert(canonical(record_val(m)));
    lemma_capsule_canonical(receipt_tag(), record_val(m));
    lemma_decode_encode(capsule_val(receipt_tag(), record_val(m)));
    lemma_norm_canonical(capsule_val(receipt_tag(), record_val(m)));
    // the entity reads back
    lemma_result_round_trip(m.out);
    let back = receipt_from_val(record_val(m));
    assert(back == Some(m)) by {
        let r = back->Some_0;
        assert(r.issuer == m.issuer);
    }
}

/// Workflow information's capsule reads back as that information, belonging
/// to its workflow.
pub proof fn lemma_info_capsule_round_trip(m: WorkflowInfoModel)
    requires
        info_encodable(m),
    ensures
        decode_capsule_spec(m.cid, info_capsule(m)) == Ok::<CapsuleModel, CapsuleError>(
            CapsuleModel::Workflow(m),
        ),
{
    let d = info_val(m)->Dict_0;
    reveal_with_fuel(chars_lt, 3);
    assert(chars_lt(key_cid(), key_name()));
    assert(chars_lt(key_name(), key_num_tasks()));
    assert(chars_lt(key_num_tasks(), key_progress()));
    assert(key_progress_count() =~= key_progress() + seq!['_', 'c', 'o', 'u', 'n', 't']);
    lemma_chars_lt_prefix(key_progress(), seq!['_', 'c', 'o', 'u', 'n', 't']);
    assert(chars_lt(key_progress_count(), key_resources()));
    assert(keys_ascending(d));
    lemma_links_canonical(m.progress);
    if let Some(s) = m.name {
        lemma_text_canonical(s);
    }
    let ix = indexed_val(m.resources);
    assert forall|i: int| 0 <= i < ix.len() implies canonical(#[trigger] ix[i]) by {
        let e = m.resources[i];
        let rs = resources_val(e.1);
        assert forall|j: int| 0 <= j < rs.len() implies canonical(#[trigger] rs[j]) by {
            assert(rs[j] == resource_val(e.1[j]));
            match e.1[j] {
                ResourceModel::Url(u) => lemma_text_canonical(u),
                ResourceModel::Cid(c) => {},
            }
        }
        lemma_canonical_list(rs);
        let pair = seq![Val::Link(e.0), Val::List(rs)];
        assert forall|j: int| 0 <= j < pair.len() implies canonical(#[trigger] pair[j]) by {}
        lemma_canonical_list(pair);
        assert(ix[i] == Val::List(pair));
    }
    lemma_canonical_list(ix);
    assert forall|i: int| 0 <= i < d.len() implies vstd::utf8::encode_utf8((#[trigger] d[i]).0).len()
        <= u64::MAX && canonical(d[i].1) by {
        lemma_utf8_len(d[i].0);
    }
    lemma_canonical_dict(d);
    assert(canonical(info_val(m)));
    lemma_capsule_canonical(workflow_tag(), info_val(m));
    lemma_decode_encode(capsule_val(workflow_tag(), info_val(m)));
    lemma_norm_canonical(capsule_val(workflow_tag(), info_val(m)));
    // the entity reads back
    assert(indexed_from_val(ix) == Some(m.resources)) by {
        assert forall|i: int| 0 <= i < ix.len() implies (#[trigger] indexed_entry_from_val(ix[i]))
            == Some(m.resources[i]) by {
            let e = m.resources[i];
            let rs = resources_val(e.1);
            assert forall|j: int| 0 <= j < rs.len() implies (#[trigger] resource_from_val(rs[j]))
                == Some(e.1[j]) by {
                assert(rs[j] == resource_val(e.1[j]));
            }
            assert(resources_from_val(rs) == Some(e.1)) by {
                assert(Seq::new(rs.len(), |j: int| resource_from_val(rs[j])->Some_0) =~= e.1);
            }
            assert(ix[i] == indexed_entry_val(e));
        }
        assert(Seq::new(ix.len(), |i: int| indexed_entry_from_val(ix[i])->Some_0) =~= m.resources);
    }
    assert(receipt_tag() != workflow_tag()) by {
        assert(receipt_tag()[0] != workflow_tag()[0]);
    }
    let back = info_from_val(info_val(m));
    assert(back == Some(m)) by {
        let r = back->Some_0;
        assert(r.name == m.name);
    }
}

} // verus!

verus! {

/// The receipt with its metadata and output in normal form.
pub open spec fn norm_receipt(m: ReceiptModel) -> ReceiptModel {
    ReceiptModel {
        meta: norm(m.meta),
        out: match m.out {
            InstructionResult::Success(x) => InstructionResult::Success(norm(x)),
            InstructionResult::Error(x) => InstructionResult::Error(norm(x)),
            InstructionResult::Just(x) => InstructionResult::Just(norm(x)),
        },
        ..m
    }
}

/// What every receipt held at run time satisfies: sizes that a value can
/// hold, whatever the order of its maps.
pub open spec fn receipt_bounded(m: ReceiptModel) -> bool {
    &&& bounded(m.meta)
    &&& bounded(m.out.spec_inner())
    &&& m.instruction.len() <= MAX_CID_LEN
    &&& m.ran.len() <= MAX_CID_LEN
    &&& forall|i: int| 0 <= i < m.prf.len() ==> (#[trigger] m.prf[i]).len() <= MAX_CID_LEN
    &&& m.prf.len() <= u64::MAX
    &&& (m.issuer matches Some(s) ==> s.len() <= 0x1000_0000_0000_0000)
}

proof fn lemma_norm_single(e: (Seq<char>, Val))
    ensures
        sort_entries(seq![e]) == seq![e],
{
    let s = seq![e];
    assert(s.drop_last() =~= Seq::<(Seq<char>, Val)>::empty());
    assert(sort_entries(s.drop_last()) == Seq::<(Seq<char>, Val)>::empty());
}

proof fn lemma_norm_record(m: ReceiptModel)
    ensures
        norm(record_val(m)) == record_val(norm_receipt(m)),
        norm(capsule_val(receipt_tag(), record_val(m))) == capsule_val(receipt_tag(), record_val(norm_receipt(m))),
{
    let m2 = norm_receipt(m);
    let d = record_val(m)->Dict_0;
    let d2 = record_val(m2)->Dict_0;
    lemma_norm_dict(d);
    let items = result_to_val(m.out)->List_0;
    lemma_norm_list(items);
    assert(norm_list(items) =~= result_to_val(m2.out)->List_0);
    let links = links_val(m.prf);
    lemma_norm_list(links);
    assert(norm_list(links) =~= links);
    assert(norm_dict(d) =~= d2);
    reveal_with_fuel(chars_lt, 3);
    assert(chars_lt(key_instruction(), key_iss()));
    assert(chars_lt(key_iss(), key_meta()));
    assert(chars_lt(key_meta(), key_out()));
    assert(chars_lt(key_out(), key_prf()));
    assert(chars_lt(key_prf(), key_ran()));
    assert(keys_ascending(d2));
    lemma_sort_sorted(d2);
    let c = seq![(receipt_tag(), record_val(m))];
    lemma_norm_dict(c);
    assert(norm_dict(c) =~= seq![(receipt_tag(), record_val(m2))]);
    lemma_norm_single((receipt_tag(), record_val(m2)));
}

/// A receipt's capsule reads back as that receipt, its metadata and output
/// in normal form, answering its instruction: capsule encoding and decoding
/// are the identity up to the order of maps.
pub proof fn lemma_receipt_capsule_read_back(m: ReceiptModel)
    requires
        receipt_bounded(m),
    ensures
        decode_capsule_spec(m.instruction, receipt_capsule(m)) == Ok::<CapsuleModel, CapsuleError>(
            CapsuleModel::Receipt(norm_receipt(m)),
        ),
{
    let m2 = norm_receipt(m);
    lemma_bounded_norm(m.meta);
    lemma_bounded_norm(m.out.spec_inner());
    assert(m2.out.spec_inner() == norm(m.out.spec_inner()));
    assert(receipt_encodable(m2));
    lemma_receipt_capsule_round_trip(m2);
    lemma_norm_record(m);
    lemma_norm_record(m2);
    lemma_norm_canonical(m2.meta);
    lemma_norm_canonical(m2.out.spec_inner());
    assert(norm_receipt(m2) == m2);
}

} // verus!
