//! The event handler's decisions on events from workers and the runner:
//! publishing receipts and workflow progress, replaying receipts, and the
//! table of outstanding queries, at most one entry per query.
use vstd::prelude::*;
use crate::capsule::{info_capsule, receipt_capsule, CapsuleTag, PeerId};
use crate::cid::Cid;
use crate::codec::{canonical_encoding, encode};
use crate::receipt::{receipt_cid, record_val, Receipt, ReceiptModel};
use crate::store::ReceiptStore;
use crate::workflow_info::{progress_wf, WorkflowInfo, WorkflowInfoModel};

verus! {

/// Topic on which receipts are gossiped.
pub const RECEIPTS_TOPIC: &'static str = "receipts";

/// Namespace under which peers register with rendezvous points.
pub const RENDEZVOUS_NAMESPACE: &'static str = "homestar";

/// How many peers must store a record for its put to succeed.
#[derive(Debug, Clone, Copy, PartialEq, Eq)]
pub enum Quorum {
    One,
    N(usize),
}

/// The quorum for a configured replication count: zero means one peer.
pub fn quorum_of(k: usize) -> (q: Quorum)
    ensures
        q == (if k == 0 { Quorum::One } else { Quorum::N(k) }),
{
    if k > 0 {
        Quorum::N(k)
    } else {
        Quorum::One
    }
}

/// Identifies a request or a record query: the entity's identifier and its
/// capsule tag.
#[derive(Debug)]
pub struct RequestResponseKey {
    pub cid: Cid,
    pub capsule_tag: CapsuleTag,
}

impl RequestResponseKey {
    pub fn new(cid: Cid, capsule_tag: CapsuleTag) -> (r: RequestResponseKey)
        ensures
            r.cid@ == cid@,
            r.capsule_tag == capsule_tag,
    {
        RequestResponseKey { cid, capsule_tag }
    }

    /// A copy of this key.
    pub fn copy(&self) -> (r: RequestResponseKey)
        ensures
            r.cid@ == self.cid@,
            r.capsule_tag == self.capsule_tag,
    {
        RequestResponseKey { cid: self.cid.clone(), capsule_tag: self.capsule_tag }
    }
}

/// A handle on a waiting one-shot channel, held by whoever waits.
pub type SenderId = u64;

/// A query of the distributed store for a record, answered to `sender`.
#[derive(Debug)]
pub struct QueryRecord {
    pub cid: Cid,
    pub capsule: CapsuleTag,
    pub sender: Option<SenderId>,
}

impl QueryRecord {
    /// A query for the record of `cid`.
    pub fn with(cid: Cid, capsule: CapsuleTag, sender: Option<SenderId>) -> (r: QueryRecord)
        ensures
            r.cid@ == cid@,
            r.capsule == capsule,
            r.sender == sender,
    {
        QueryRecord { cid, capsule, sender }
    }
}

/// A request to one peer for a record, answered to `sender`.
#[derive(Debug)]
pub struct PeerRequest {
    pub peer: PeerId,
    pub request: RequestResponseKey,
    pub sender: SenderId,
}

impl PeerRequest {
    /// A request to `peer` for `request`.
    pub fn with(peer: PeerId, request: RequestResponseKey, sender: SenderId) -> (r: PeerRequest)
        ensures
            r.peer == peer,
            r.request == request,
            r.sender == sender,
    {
        PeerRequest { peer, request, sender }
    }
}

/// What the table holds for a query: the entity's identifier, its tag, and
/// who waits for the answer.
pub type PendingModel = (Seq<u8>, CapsuleTag, Option<SenderId>);

/// Outstanding queries of the distributed store, by query id, with at most
/// one entry per query.
#[derive(Debug)]
pub struct PendingQueries {
    entries: Vec<(u64, RequestResponseKey, Option<SenderId>)>,
}

impl View for PendingQueries {
    type V = Map<u64, PendingModel>;

    closed spec fn view(&self) -> Map<u64, PendingModel> {
        Map::new(
            |id: u64| exists|i: int| 0 <= i < self.entries@.len() && self.entries@[i].0 == id,
            |id: u64| {
                let i = choose|i: int| 0 <= i < self.entries@.len() && self.entries@[i].0 == id;
                (self.entries@[i].1.cid@, self.entries@[i].1.capsule_tag, self.entries@[i].2)
            },
        )
    }
}

impl PendingQueries {
    /// No query id appears twice.
    pub closed spec fn wf(&self) -> bool {
        forall|i: int, j: int| 0 <= i < j < self.entries@.len() ==> self.entries@[i].0 != self.entries@[j].0
    }

    proof fn lemma_at(&self, i: int)
        requires
            self.wf(),
            0 <= i < self.entries@.len(),
        ensures
            self@.contains_key(self.entries@[i].0),
            self@[self.entries@[i].0] == (self.entries@[i].1.cid@, self.entries@[i].1.capsule_tag, self.entries@[i].2),
    {
        let id = self.entries@[i].0;
        assert(self@.contains_key(id));
        let j = choose|j: int| 0 <= j < self.entries@.len() && self.entries@[j].0 == id;
        if i != j {
            if i < j {
                assert(self.entries@[i].0 != self.entries@[j].0);
            } else {
                assert(self.entries@[j].0 != self.entries@[i].0);
            }
        }
    }

    /// No outstanding query.
    pub fn new() -> (r: PendingQueries)
        ensures
            r.wf(),
            r@ == Map::<u64, PendingModel>::empty(),
    {
        let r = PendingQueries { entries: Vec::new() };
        assert(r@ =~= Map::<u64, PendingModel>::empty());
        r
    }

    /// Takes the entry of query `id` out of the table.
    pub fn remove(&mut self, id: u64) -> (r: Option<(RequestResponseKey, Option<SenderId>)>)
        requires
            old(self).wf(),
        ensures
            final(self).wf(),
            final(self)@ == old(self)@.remove(id),
            match r {
                Some((key, sender)) => old(self)@.contains_key(id) && old(self)@[id] == (key.cid@, key.capsule_tag, sender),
                None => !old(self)@.contains_key(id),
            },
    {
        let mut i: usize = 0;
        while i < self.entries.len()
            invariant
                self.wf(),
                *self == *old(self),
                i <= self.entries@.len(),
                forall|j: int| 0 <= j < i ==> self.entries@[j].0 != id,
            decreases self.entries@.len() - i,
        {
            if self.entries[i].0 == id {
                proof {
                    self.lemma_at(i as int);
                }
                let ghost before = *self;
                let (_, key, sender) = self.entries.remove(i);
                proof {
                    let n = before.entries@.len();
                    assert forall|a: int, b: int| 0 <= a < b < self.entries@.len() implies self.entries@[a].0
                        != self.entries@[b].0 by {
                        let a2 = if a < i { a } else { a + 1 };
                        let b2 = if b < i { b } else { b + 1 };
                        assert(self.entries@[a] == before.entries@[a2]);
                        assert(self.entries@[b] == before.entries@[b2]);
                    }
                    assert forall|q: u64| #[trigger] self@.contains_key(q) <==> before@.remove(id).contains_key(q) by {
                        if self@.contains_key(q) {
                            let j = choose|j: int| 0 <= j < self.entries@.len() && self.entries@[j].0 == q;
                            let j2 = if j < i { j } else { j + 1 };
                            assert(self.entries@[j] == before.entries@[j2]);
                            assert(before@.contains_key(q));
                            assert(q != id) by {
                                if q == id {
                                    assert(before.entries@[j2].0 == before.entries@[i as int].0);
                                }
                            }
                        }
                        if before@.remove(id).contains_key(q) {
                            let j = choose|j: int| 0 <= j < before.entries@.len() && before.entries@[j].0 == q;
                            assert(j != i);
                            let j2 = if j < i { j } else { j - 1 };
                            assert(self.entries@[j2] == before.entries@[j]);
                        }
                    }
                    assert forall|q: u64| #[trigger] self@.contains_key(q) implies self@[q] == before@[q] by {
                        let j = choose|j: int| 0 <= j < self.entries@.len() && self.entries@[j].0 == q;
                        self.lemma_at(j);
                        let j2 = if j < i { j } else { j + 1 };
                        assert(self.entries@[j] == before.entries@[j2]);
                        before.lemma_at(j2);
                    }
                    assert(self@ =~= before@.remove(id));
                }
                return Some((key, sender));
            }
            i = i + 1;
        }
        proof {
            assert(!self@.contains_key(id));
            assert(self@.remove(id) =~= self@);
        }
        None
    }

    /// Registers `sender` as waiting on query `id`, replacing any entry
    /// that the query had.
    pub fn insert(&mut self, id: u64, key: RequestResponseKey, sender: Option<SenderId>)
        requires
            old(self).wf(),
        ensures
            final(self).wf(),
            final(self)@ == old(self)@.insert(id, (key.cid@, key.capsule_tag, sender)),
    {
        let _ = self.remove(id);
        let ghost before = *self;
        let ghost v = (key.cid@, key.capsule_tag, sender);
        self.entries.push((id, key, sender));
        proof {
            let n = before.entries@.len();
            assert(!before@.contains_key(id));
            assert forall|a: int, b: int| 0 <= a < b < self.entries@.len() implies self.entries@[a].0 != self.entries@[b].0 by {
                if b == n {
                    assert(self.entries@[a] == before.entries@[a]);
                    if before.entries@[a].0 == id {
                        assert(before@.contains_key(id));
                    }
                } else {
                    assert(self.entries@[a] == before.entries@[a]);
                    assert(self.entries@[b] == before.entries@[b]);
                }
            }
            assert forall|q: u64| #[trigger] self@.contains_key(q) <==> before@.insert(id, v).contains_key(q) by {
                if self@.contains_key(q) {
                    let j = choose|j: int| 0 <= j < self.entries@.len() && self.entries@[j].0 == q;
                    if j < n {
                        assert(self.entries@[j] == before.entries@[j]);
                        assert(before@.contains_key(q));
                    }
                }
                if before@.contains_key(q) {
                    let j = choose|j: int| 0 <= j < before.entries@.len() && before.entries@[j].0 == q;
                    assert(self.entries@[j] == before.entries@[j]);
                }
                if q == id {
                    assert(self.entries@[n as int].0 == id);
                }
            }
            assert forall|q: u64| #[trigger] self@.contains_key(q) implies self@[q] == before@.insert(id, v)[q] by {
                let j = choose|j: int| 0 <= j < self.entries@.len() && self.entries@[j].0 == q;
                self.lemma_at(j);
                if j < n {
                    assert(self.entries@[j] == before.entries@[j]);
                    before.lemma_at(j);
                }
            }
            assert(self@ =~= before@.insert(id, v));
        }
    }
}

} // verus!

verus! {

/// A record to put on the distributed store, and the key under which its
/// completion is tracked.
#[derive(Debug)]
pub struct PutRecord {
    pub key: Vec<u8>,
    pub value: Vec<u8>,
    pub quorum: Quorum,
    pub request: RequestResponseKey,
}

/// What publishing a captured receipt asks of the network.
#[derive(Debug)]
pub struct Publication {
    /// The receipt to gossip on the receipts topic, encoded, if gossip is on.
    pub gossip: Option<Vec<u8>>,
    /// The records to put: the receipt, then the workflow information.
    pub puts: Vec<PutRecord>,
    /// The receipt, as stored.
    pub receipt: Receipt,
}

/// Why a captured receipt cannot be published.
#[derive(Debug, Clone, Copy, PartialEq, Eq)]
pub enum PublishError {
    /// The store holds no receipt with that identifier.
    ReceiptNotFound,
}

/// Decides how a captured receipt is published. The receipt is read back
/// from the store first. With no peer connected nothing goes out: the local
/// store is authoritative. Otherwise the receipt is gossiped if gossip is
/// on, and put on the distributed store under its instruction with the
/// receipt quorum; then the receipt counts as progress of `workflow`, whose
/// information is put under the workflow's identifier with the workflow
/// quorum.
pub fn publish_and_notify(
    receipt: &Cid,
    workflow: &mut WorkflowInfo,
    store: &ReceiptStore,
    connected_peers: usize,
    pubsub_enabled: bool,
    receipt_quorum: usize,
    workflow_quorum: usize,
) -> (r: Result<Publication, PublishError>)
    requires
        store.wf(),
        progress_wf(old(workflow)@),
    ensures
        progress_wf(final(workflow)@),
        match r {
            Err(_) => (forall|k: Seq<u8>| #[trigger] store@.contains_key(k) ==> receipt_cid(store@[k]) != receipt@)
                && final(workflow)@ == old(workflow)@,
            Ok(p) => {
                &&& receipt_cid(p.receipt@) == receipt@
                &&& store@.contains_key(p.receipt@.instruction)
                &&& store@[p.receipt@.instruction] == p.receipt@
                &&& connected_peers == 0 ==> p.gossip is None && p.puts@.len() == 0 && final(workflow)@ == old(workflow)@
                &&& connected_peers > 0 ==> {
                    &&& p.gossip == (if pubsub_enabled { Some(p.gossip->Some_0) } else { None::<Vec<u8>> })
                    &&& pubsub_enabled ==> p.gossip->Some_0@ == canonical_encoding(record_val(p.receipt@))
                    &&& p.puts@.len() == 2
                    &&& p.puts@[0].key@ == p.receipt@.instruction
                    &&& p.puts@[0].value@ == receipt_capsule(p.receipt@)
                    &&& p.puts@[0].quorum == quorum_of_spec(receipt_quorum)
                    &&& p.puts@[0].request.cid@ == receipt@
                    &&& p.puts@[0].request.capsule_tag == CapsuleTag::Receipt
                    &&& final(workflow)@.progress == crate::workflow_info::progress_after(old(workflow)@, receipt@)
                    &&& final(workflow)@ == (WorkflowInfoModel {
                        progress: crate::workflow_info::progress_after(old(workflow)@, receipt@),
                        progress_count: crate::workflow_info::progress_after(old(workflow)@, receipt@).len(),
                        ..old(workflow)@
                    })
                    &&& p.puts@[1].key@ == old(workflow)@.cid
                    &&& p.puts@[1].value@ == info_capsule(final(workflow)@)
                    &&& p.puts@[1].quorum == quorum_of_spec(workflow_quorum)
                    &&& p.puts@[1].request.cid@ == old(workflow)@.cid
                    &&& p.puts@[1].request.capsule_tag == CapsuleTag::Workflow
                }
            },
        },
{
    let found = match store.find_by_receipt_cid(receipt) {
        Some(x) => x,
        None => {
            return Err(PublishError::ReceiptNotFound);
        },
    };
    if connected_peers == 0 {
        return Ok(Publication { gossip: None, puts: Vec::new(), receipt: found });
    }
    let gossip = if pubsub_enabled {
        Some(encode(&found.record_value()))
    } else {
        None
    };
    let mut puts: Vec<PutRecord> = Vec::new();
    puts.push(
        PutRecord {
            key: found.instruction.to_bytes(),
            value: found.capsule(),
            quorum: quorum_of(receipt_quorum),
            request: RequestResponseKey::new(receipt.clone(), CapsuleTag::Receipt),
        },
    );
    workflow.increment_progress(receipt.clone());
    puts.push(
        PutRecord {
            key: workflow.cid.to_bytes(),
            value: workflow.capsule(),
            quorum: quorum_of(workflow_quorum),
            request: RequestResponseKey::new(workflow.cid.clone(), CapsuleTag::Workflow),
        },
    );
    Ok(Publication { gossip, puts, receipt: found })
}

/// The quorum for a configured replication count.
pub open spec fn quorum_of_spec(k: usize) -> Quorum {
    if k == 0 {
        Quorum::One
    } else {
        Quorum::N(k)
    }
}

/// The stored receipts of the given instructions, in the order given,
/// leaving out instructions without one.
pub open spec fn replay_spec(instructions: Seq<Seq<u8>>, store: Map<Seq<u8>, ReceiptModel>) -> Seq<ReceiptModel>
    decreases instructions.len(),
{
    if instructions.len() == 0 {
        Seq::empty()
    } else {
        let rest = replay_spec(instructions.drop_last(), store);
        if store.contains_key(instructions.last()) {
            rest.push(store[instructions.last()])
        } else {
            rest
        }
    }
}

/// The receipts to replay for the given instructions: those stored, in the
/// order of the instructions; each is sent to observers and, if gossip is
/// on, gossiped again.
pub fn replay_notify(instructions: &Vec<Cid>, store: &ReceiptStore) -> (r: Vec<Receipt>)
    requires
        store.wf(),
    ensures
        Seq::new(r@.len(), |i: int| r@[i]@) == replay_spec(crate::receipt::cids_view(instructions@), store@),
{
    let ghost all = crate::receipt::cids_view(instructions@);
    let mut out: Vec<Receipt> = Vec::new();
    let mut i: usize = 0;
    while i < instructions.len()
        invariant
            store.wf(),
            all == crate::receipt::cids_view(instructions@),
            i <= instructions@.len(),
            Seq::new(out@.len(), |j: int| out@[j]@) == replay_spec(all.subrange(0, i as int), store@),
        decreases instructions@.len() - i,
    {
        proof {
            assert(all.subrange(0, i + 1).drop_last() =~= all.subrange(0, i as int));
        }
        let ghost before = out@;
        match store.find(&instructions[i]) {
            Some(x) => {
                out.push(x);
                assert(Seq::new(out@.len(), |j: int| out@[j]@) =~= Seq::new(before.len(), |j: int| before[j]@).push(
                    out@.last()@,
                ));
            },
            None => {},
        }
        i = i + 1;
    }
    assert(all.subrange(0, i as int) =~= all);
    out
}

} // verus!

verus! {

/// A receipt captured by a worker, with the workflow information it
/// advances and metadata for observers.
#[derive(Debug)]
pub struct Captured {
    pub receipt: Cid,
    pub workflow: WorkflowInfo,
    pub metadata: Option<crate::value::Value>,
}

impl Captured {
    pub fn with(receipt: Cid, workflow: WorkflowInfo, metadata: Option<crate::value::Value>) -> (r: Captured)
        ensures
            r.receipt == receipt,
            r.workflow == workflow,
            r.metadata == metadata,
    {
        Captured { receipt, workflow, metadata }
    }
}

/// Receipts to replay for observers, by their instructions.
#[derive(Debug)]
pub struct Replay {
    pub pointers: Vec<Cid>,
    pub metadata: Option<crate::value::Value>,
}

impl Replay {
    pub fn with(pointers: Vec<Cid>, metadata: Option<crate::value::Value>) -> (r: Replay)
        ensures
            r.pointers == pointers,
            r.metadata == metadata,
    {
        Replay { pointers, metadata }
    }
}

/// What workers and the runner ask of the event handler.
#[derive(Debug)]
pub enum Event {
    CapturedReceipt(Captured),
    ReplayReceipts(Replay),
    Shutdown(SenderId),
    FindRecord(QueryRecord),
    RemoveRecord(QueryRecord),
    OutboundRequest(PeerRequest),
    GetProviders(QueryRecord),
    ProvideRecord(QueryRecord),
    /// Providers found for a record, to ask in turn.
    Providers { peers: Vec<PeerId>, key: RequestResponseKey, sender: SenderId },
    RegisterPeer(PeerId),
    DiscoverPeers(PeerId),
    GetNodeInfo(SenderId),
}

/// What the event handler asks of the network and of observers.
#[derive(Debug)]
pub enum Command {
    /// Tell observers of a receipt.
    Notify { receipt: Receipt, metadata: Option<crate::value::Value> },
    /// Gossip an encoded receipt on the receipts topic.
    Gossip { payload: Vec<u8> },
    /// Put a record on the distributed store.
    Put(PutRecord),
    /// Look a record up; its query is then registered for `sender`.
    GetRecord { key: Vec<u8>, request: RequestResponseKey, sender: Option<SenderId> },
    /// Remove a record and stop providing it.
    RemoveRecord { key: Vec<u8> },
    /// Look up the providers of a record; its query is then registered.
    GetProviders { key: Vec<u8>, request: RequestResponseKey, sender: Option<SenderId> },
    /// Provide a record; its query is then registered.
    StartProviding { key: Vec<u8>, request: RequestResponseKey, sender: Option<SenderId> },
    /// Ask a peer directly.
    SendRequest(PeerRequest),
    /// Register with a rendezvous peer.
    Register { peer: PeerId },
    /// Discover peers through a rendezvous peer.
    Discover { peer: PeerId },
    /// Answer with the node's listeners and connections.
    NodeInfo { reply_to: SenderId },
    /// Shut down and acknowledge to `sender`.
    Shutdown { reply_to: SenderId },
}

/// The event handler's settings and connection count.
#[derive(Debug, Clone, Copy)]
pub struct HandlerState {
    pub connected_peers: usize,
    pub pubsub_enabled: bool,
    pub receipt_quorum: usize,
    pub workflow_quorum: usize,
}

/// The commands for a record query: key bytes, request key and sender.
pub open spec fn query_command_ok(key: Seq<u8>, request: RequestResponseKey, sender: Option<SenderId>, q: QueryRecord) -> bool {
    key == q.cid@ && request.cid@ == q.cid@ && request.capsule_tag == q.capsule && sender == q.sender
}

/// Mathematical form of optional metadata.
pub open spec fn opt_view(o: Option<crate::value::Value>) -> Option<crate::value::Val> {
    match o {
        Some(v) => Some(v@),
        None => None,
    }
}

/// One notice per found receipt, in order, then, with gossip on, one
/// gossip of each, in the same order.
pub open spec fn replay_commands_ok(cmds: Seq<Command>, found: Seq<ReceiptModel>, metadata: Option<crate::value::Val>, gossip: bool) -> bool {
    &&& cmds.len() == (if gossip { 2 * found.len() } else { found.len() })
    &&& forall|i: int|
        0 <= i < found.len() ==> (#[trigger] cmds[i]) is Notify && cmds[i]->Notify_receipt@ == found[i]
            && opt_view(cmds[i]->Notify_metadata) == metadata
    &&& gossip ==> forall|i: int|
        0 <= i < found.len() ==> (#[trigger] cmds[found.len() + i]) is Gossip && cmds[found.len() + i]->Gossip_payload@
            == canonical_encoding(record_val(found[i]))
}

/// One request per peer, in order, for `key`, answered to `sender`.
pub open spec fn requests_ok(cmds: Seq<Command>, peers: Seq<PeerId>, key: RequestResponseKey, sender: SenderId) -> bool {
    &&& cmds.len() == peers.len()
    &&& forall|i: int|
        0 <= i < peers.len() ==> (#[trigger] cmds[i]) is SendRequest && cmds[i]->SendRequest_0.peer == peers[i]
            && cmds[i]->SendRequest_0.request.cid@ == key.cid@ && cmds[i]->SendRequest_0.request.capsule_tag
            == key.capsule_tag && cmds[i]->SendRequest_0.sender == sender
}

/// Decides what an event asks of the network and of observers.
pub fn handle_info(event: Event, state: &HandlerState, store: &ReceiptStore) -> (r: Result<Vec<Command>, PublishError>)
    requires
        store.wf(),
        event matches Event::CapturedReceipt(c) ==> progress_wf(c.workflow@),
    ensures
        match event {
            Event::CapturedReceipt(c) => match r {
                Err(_) => forall|k: Seq<u8>| #[trigger] store@.contains_key(k) ==> receipt_cid(store@[k]) != c.receipt@,
                Ok(cmds) => {
                    &&& cmds@.len() >= 1
                    &&& cmds@[0] is Notify
                    &&& receipt_cid(cmds@[0]->Notify_receipt@) == c.receipt@
                    &&& cmds@[0]->Notify_metadata == c.metadata
                    &&& state.connected_peers == 0 ==> cmds@.len() == 1
                    &&& state.connected_peers > 0 ==> cmds@.len() == (if state.pubsub_enabled { 4int } else { 3int })
                    &&& state.connected_peers > 0 && state.pubsub_enabled ==> cmds@[1] is Gossip
                        && cmds@[1]->Gossip_payload@ == canonical_encoding(record_val(cmds@[0]->Notify_receipt@))
                    &&& state.connected_peers > 0 ==> {
                        let g = if state.pubsub_enabled { 1int } else { 0int };
                        &&& cmds@[1 + g] is Put
                        &&& cmds@[1 + g]->Put_0.key@ == cmds@[0]->Notify_receipt@.instruction
                        &&& cmds@[1 + g]->Put_0.value@ == receipt_capsule(cmds@[0]->Notify_receipt@)
                        &&& cmds@[1 + g]->Put_0.quorum == quorum_of_spec(state.receipt_quorum)
                        &&& cmds@[1 + g]->Put_0.request.capsule_tag == CapsuleTag::Receipt
                        &&& cmds@[2 + g] is Put
                        &&& cmds@[2 + g]->Put_0.key@ == c.workflow@.cid
                        &&& cmds@[2 + g]->Put_0.quorum == quorum_of_spec(state.workflow_quorum)
                        &&& cmds@[2 + g]->Put_0.request.capsule_tag == CapsuleTag::Workflow
                        &&& cmds@[2 + g]->Put_0.value@ == info_capsule(WorkflowInfoModel {
                            progress: crate::workflow_info::progress_after(c.workflow@, c.receipt@),
                            progress_count: crate::workflow_info::progress_after(c.workflow@, c.receipt@).len(),
                            ..c.workflow@
                        })
                    }
                },
            },
            Event::ReplayReceipts(rp) => r is Ok && replay_commands_ok(
                r->Ok_0@,
                replay_spec(crate::receipt::cids_view(rp.pointers@), store@),
                opt_view(rp.metadata),
                state.pubsub_enabled,
            ),
            Event::Shutdown(s) => r is Ok && r->Ok_0@ == seq![Command::Shutdown { reply_to: s }],
            Event::GetNodeInfo(s) => r is Ok && r->Ok_0@ == seq![Command::NodeInfo { reply_to: s }],
            Event::FindRecord(q) => r is Ok && r->Ok_0@.len() == 1 && r->Ok_0@[0] is GetRecord
                && query_command_ok(r->Ok_0@[0]->GetRecord_key@, r->Ok_0@[0]->GetRecord_request, r->Ok_0@[0]->GetRecord_sender, q),
            Event::GetProviders(q) => r is Ok && r->Ok_0@.len() == 1 && r->Ok_0@[0] is GetProviders
                && query_command_ok(r->Ok_0@[0]->GetProviders_key@, r->Ok_0@[0]->GetProviders_request, r->Ok_0@[0]->GetProviders_sender, q),
            Event::ProvideRecord(q) => r is Ok && r->Ok_0@.len() == 1 && r->Ok_0@[0] is StartProviding
                && query_command_ok(r->Ok_0@[0]->StartProviding_key@, r->Ok_0@[0]->StartProviding_request, r->Ok_0@[0]->StartProviding_sender, q),
            Event::RemoveRecord(q) => r is Ok && r->Ok_0@.len() == 1 && r->Ok_0@[0] is RemoveRecord
                && r->Ok_0@[0]->RemoveRecord_key@ == q.cid@,
            Event::OutboundRequest(p) => r is Ok && r->Ok_0@ == seq![Command::SendRequest(p)],
            Event::Providers { peers, key, sender } => r is Ok && requests_ok(r->Ok_0@, peers@, key, sender),
            Event::RegisterPeer(p) => r is Ok && r->Ok_0@ == seq![Command::Register { peer: p }],
            Event::DiscoverPeers(p) => r is Ok && r->Ok_0@ == seq![Command::Discover { peer: p }],
        },
{
    let mut cmds: Vec<Command> = Vec::new();
    match event {
        Event::CapturedReceipt(c) => {
            let mut workflow = c.workflow;
            let p = match publish_and_notify(
                &c.receipt,
                &mut workflow,
                store,
                state.connected_peers,
                state.pubsub_enabled,
                state.receipt_quorum,
                state.workflow_quorum,
            ) {
                Ok(p) => p,
                Err(e) => {
                    return Err(e);
                },
            };
            cmds.push(Command::Notify { receipt: p.receipt, metadata: c.metadata });
            if let Some(payload) = p.gossip {
                cmds.push(Command::Gossip { payload });
            }
            let mut puts = p.puts;
            if puts.len() == 2 {
                let second = puts.pop().unwrap();
                let first = puts.pop().unwrap();
                cmds.push(Command::Put(first));
                cmds.push(Command::Put(second));
            }
        },
        Event::ReplayReceipts(rp) => {
            let found = replay_notify(&rp.pointers, store);
            let ghost fv = Seq::new(found@.len(), |j: int| found@[j]@);
            let ghost md = opt_view(rp.metadata);
            let mut i: usize = 0;
            while i < found.len()
                invariant
                    fv == Seq::new(found@.len(), |j: int| found@[j]@),
                    md == opt_view(rp.metadata),
                    i <= found@.len(),
                    cmds@.len() == i,
                    forall|j: int|
                        0 <= j < i ==> (#[trigger] cmds@[j]) is Notify && cmds@[j]->Notify_receipt@ == fv[j]
                            && opt_view(cmds@[j]->Notify_metadata) == md,
                decreases found@.len() - i,
            {
                let m = match &rp.metadata {
                    Some(m) => Some(m.copy()),
                    None => None,
                };
                cmds.push(Command::Notify { receipt: found[i].copy(), metadata: m });
                i = i + 1;
            }
            if state.pubsub_enabled {
                let mut i: usize = 0;
                let n = found.len();
                while i < n
                    invariant
                        fv == Seq::new(found@.len(), |j: int| found@[j]@),
                        md == opt_view(rp.metadata),
                        n == found@.len(),
                        i <= n,
                        cmds@.len() == n + i,
                        forall|j: int|
                            0 <= j < n ==> (#[trigger] cmds@[j]) is Notify && cmds@[j]->Notify_receipt@ == fv[j]
                                && opt_view(cmds@[j]->Notify_metadata) == md,
                        forall|j: int|
                            0 <= j < i ==> (#[trigger] cmds@[n + j]) is Gossip && cmds@[n + j]->Gossip_payload@
                                == canonical_encoding(record_val(fv[j])),
                    decreases n - i,
                {
                    let payload = encode(&found[i].record_value());
                    cmds.push(Command::Gossip { payload });
                    i = i + 1;
                }
            }
        },
        Event::Shutdown(s) => cmds.push(Command::Shutdown { reply_to: s }),
        Event::GetNodeInfo(s) => cmds.push(Command::NodeInfo { reply_to: s }),
        Event::FindRecord(q) => {
            let key = q.cid.to_bytes();
            cmds.push(Command::GetRecord { key, request: RequestResponseKey::new(q.cid, q.capsule), sender: q.sender });
        },
        Event::GetProviders(q) => {
            let key = q.cid.to_bytes();
            cmds.push(Command::GetProviders { key, request: RequestResponseKey::new(q.cid, q.capsule), sender: q.sender });
        },
        Event::ProvideRecord(q) => {
            let key = q.cid.to_bytes();
            cmds.push(Command::StartProviding { key, request: RequestResponseKey::new(q.cid, q.capsule), sender: q.sender });
        },
        Event::RemoveRecord(q) => cmds.push(Command::RemoveRecord { key: q.cid.to_bytes() }),
        Event::OutboundRequest(p) => cmds.push(Command::SendRequest(p)),
        Event::Providers { peers, key, sender } => {
            let ghost all = peers@;
            let n = peers.len();
            let mut peers = peers;
            let mut rev: Vec<PeerId> = Vec::new();
            while peers.len() > 0
                invariant
                    peers@.len() + rev@.len() == n,
                    n == all.len(),
                    forall|i: int| 0 <= i < peers@.len() ==> peers@[i] == all[i],
                    forall|i: int| 0 <= i < rev@.len() ==> #[trigger] rev@[i] == all[n - 1 - i],
                decreases peers@.len(),
            {
                rev.push(peers.pop().unwrap());
            }
            while rev.len() > 0
                invariant
                    rev@.len() + cmds@.len() == n,
                    n == all.len(),
                    forall|i: int| 0 <= i < rev@.len() ==> #[trigger] rev@[i] == all[n - 1 - i],
                    forall|i: int|
                        0 <= i < cmds@.len() ==> (#[trigger] cmds@[i]) is SendRequest && cmds@[i]->SendRequest_0.peer == all[i]
                            && cmds@[i]->SendRequest_0.request.cid@ == key.cid@ && cmds@[i]->SendRequest_0.request.capsule_tag
                            == key.capsule_tag && cmds@[i]->SendRequest_0.sender == sender,
                decreases rev@.len(),
            {
                let p = rev.pop().unwrap();
                cmds.push(Command::SendRequest(PeerRequest::with(p, key.copy(), sender)));
            }
        },
        Event::RegisterPeer(p) => cmds.push(Command::Register { peer: p }),
        Event::DiscoverPeers(p) => cmds.push(Command::Discover { peer: p }),
    }
    Ok(cmds)
}

} // verus!
