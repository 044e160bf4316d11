//! The event handler's decisions on what the network reports: completed
//! queries of the distributed store, identified peers, and requests and
//! responses between peers.
use vstd::prelude::*;
use crate::capsule::{decode_capsule, decode_capsule_spec, info_capsule, CapsuleError, CapsuleModel, CapsuleTag, DecodedRecord, PeerId};
use crate::cid::Cid;
use crate::event::{PeerRequest, PendingQueries, RequestResponseKey, SenderId};
use crate::codec::{decode, decode_val};
use crate::receipt::{receipt_from_val, text, Receipt};
use crate::store::{commit_spec, Commit, ReceiptStore};
use crate::workflow_info::WorkflowInfo;

verus! {

/// How a put of a record ended.
#[derive(Debug)]
pub enum PutOutcome {
    /// Stored on as many peers as the quorum asked.
    Stored,
    /// Stored on fewer peers than the quorum asked: those listed.
    QuorumFailed { stored_to: Vec<PeerId> },
    /// Failed otherwise.
    Failed,
}

/// What observers are told about a completed put.
#[derive(Debug)]
pub enum PutNotice {
    ReceiptQuorumSuccess { cid: Cid, quorum: usize },
    WorkflowInfoQuorumSuccess { cid: Cid, quorum: usize },
    ReceiptQuorumFailure { cid: Cid, quorum: usize, connected_peers: usize, stored_to_peers: Vec<PeerId> },
    WorkflowInfoQuorumFailure { cid: Cid, quorum: usize, connected_peers: usize, stored_to_peers: Vec<PeerId> },
}

/// Ends the put of query `id`: its entry leaves the table, and observers
/// hear of a quorum reached or missed, with the quorum of the record's kind,
/// the connected peers and the peers that stored it. A put that is not in
/// the table, or that failed otherwise, is not reported.
pub fn on_put_record(
    pending: &mut PendingQueries,
    id: u64,
    outcome: PutOutcome,
    receipt_quorum: usize,
    workflow_quorum: usize,
    connected_peers: usize,
) -> (r: Option<PutNotice>)
    requires
        old(pending).wf(),
    ensures
        final(pending).wf(),
        final(pending)@ == old(pending)@.remove(id),
        !old(pending)@.contains_key(id) ==> r is None,
        old(pending)@.contains_key(id) ==> {
            let (cid, tag, _) = old(pending)@[id];
            match outcome {
                PutOutcome::Stored => match tag {
                    CapsuleTag::Receipt => r matches Some(PutNotice::ReceiptQuorumSuccess { cid: c, quorum })
                        && c@ == cid && quorum == receipt_quorum,
                    CapsuleTag::Workflow => r matches Some(PutNotice::WorkflowInfoQuorumSuccess { cid: c, quorum })
                        && c@ == cid && quorum == workflow_quorum,
                },
                PutOutcome::QuorumFailed { stored_to } => match tag {
                    CapsuleTag::Receipt => r matches Some(
                        PutNotice::ReceiptQuorumFailure { cid: c, quorum, connected_peers: n, stored_to_peers },
                    ) && c@ == cid && quorum == receipt_quorum && n == connected_peers && stored_to_peers
                        == stored_to,
                    CapsuleTag::Workflow => r matches Some(
                        PutNotice::WorkflowInfoQuorumFailure { cid: c, quorum, connected_peers: n, stored_to_peers },
                    ) && c@ == cid && quorum == workflow_quorum && n == connected_peers && stored_to_peers
                        == stored_to,
                },
                PutOutcome::Failed => r is None,
            }
        },
{
    let (key, _) = match pending.remove(id) {
        Some(e) => e,
        None => {
            return None;
        },
    };
    match outcome {
        PutOutcome::Stored => match key.capsule_tag {
            CapsuleTag::Receipt => Some(PutNotice::ReceiptQuorumSuccess { cid: key.cid, quorum: receipt_quorum }),
            CapsuleTag::Workflow => Some(
                PutNotice::WorkflowInfoQuorumSuccess { cid: key.cid, quorum: workflow_quorum },
            ),
        },
        PutOutcome::QuorumFailed { stored_to } => match key.capsule_tag {
            CapsuleTag::Receipt => Some(
                PutNotice::ReceiptQuorumFailure {
                    cid: key.cid,
                    quorum: receipt_quorum,
                    connected_peers,
                    stored_to_peers: stored_to,
                },
            ),
            CapsuleTag::Workflow => Some(
                PutNotice::WorkflowInfoQuorumFailure {
                    cid: key.cid,
                    quorum: workflow_quorum,
                    connected_peers,
                    stored_to_peers: stored_to,
                },
            ),
        },
        PutOutcome::Failed => None,
    }
}

/// A record read as a capsule for the entity `cid` of kind `tag`: a
/// capsule of the other kind is invalid.
pub open spec fn decode_for_tag(cid: Seq<u8>, tag: CapsuleTag, bytes: Seq<u8>) -> Result<CapsuleModel, CapsuleError> {
    match decode_capsule_spec(cid, bytes) {
        Ok(CapsuleModel::Receipt(m)) => if tag == CapsuleTag::Receipt {
            Ok(CapsuleModel::Receipt(m))
        } else {
            Err(CapsuleError::InvalidCapsule)
        },
        Ok(CapsuleModel::Workflow(m)) => if tag == CapsuleTag::Workflow {
            Ok(CapsuleModel::Workflow(m))
        } else {
            Err(CapsuleError::InvalidCapsule)
        },
        Err(e) => Err(e),
    }
}

/// Ends the lookup of query `id` with a found record: its entry leaves the
/// table, and the record, read as a capsule for the entity and of the kind
/// that was asked for, goes to whoever waits. A lookup that is not in the table is dropped.
pub fn on_record_found(pending: &mut PendingQueries, id: u64, record: &[u8], peer: Option<PeerId>) -> (r: Option<(Option<SenderId>, Result<DecodedRecord, CapsuleError>)>)
    requires
        old(pending).wf(),
    ensures
        final(pending).wf(),
        final(pending)@ == old(pending)@.remove(id),
        !old(pending)@.contains_key(id) ==> r is None,
        old(pending)@.contains_key(id) ==> (r matches Some((sender, res)) && sender == old(pending)@[id].2
            && match res {
            Ok(rec) => decode_for_tag(old(pending)@[id].0, old(pending)@[id].1, record@) == Ok::<CapsuleModel, CapsuleError>(rec.model()),
            Err(e) => decode_for_tag(old(pending)@[id].0, old(pending)@[id].1, record@) == Err::<CapsuleModel, CapsuleError>(e),
        }),
{
    let (key, sender) = match pending.remove(id) {
        Some(e) => e,
        None => {
            return None;
        },
    };
    let res = match decode_capsule(&key.cid, peer, record) {
        Ok(rec) => {
            let fits = match (&rec, key.capsule_tag) {
                (DecodedRecord::Receipt { .. }, CapsuleTag::Receipt) => true,
                (DecodedRecord::Workflow { .. }, CapsuleTag::Workflow) => true,
                _ => false,
            };
            if fits {
                Ok(rec)
            } else {
                Err(CapsuleError::InvalidCapsule)
            }
        },
        Err(e) => Err(e),
    };
    Some((sender, res))
}

/// What follows a failed lookup.
#[derive(Debug)]
pub enum LookupFailure {
    /// Workflow information: ask the peers that provide it instead.
    FindProviders { key: RequestResponseKey, sender: Option<SenderId> },
    /// Anything else: tell whoever waits that it was not found.
    NotFound { sender: Option<SenderId> },
}

/// Ends the lookup of query `id` without a record: its entry leaves the
/// table; workflow information is then sought from its providers, while a
/// failed receipt lookup is reported to whoever waits.
pub fn on_record_not_found(pending: &mut PendingQueries, id: u64) -> (r: Option<LookupFailure>)
    requires
        old(pending).wf(),
    ensures
        final(pending).wf(),
        final(pending)@ == old(pending)@.remove(id),
        !old(pending)@.contains_key(id) ==> r is None,
        old(pending)@.contains_key(id) ==> match old(pending)@[id].1 {
            CapsuleTag::Workflow => (r matches Some(LookupFailure::FindProviders { key, sender })
                && key.cid@ == old(pending)@[id].0 && key.capsule_tag == CapsuleTag::Workflow && sender
                == old(pending)@[id].2),
            CapsuleTag::Receipt => (r matches Some(LookupFailure::NotFound { sender }) && sender == old(pending)@[id].2),
        },
{
    let (key, sender) = match pending.remove(id) {
        Some(e) => e,
        None => {
            return None;
        },
    };
    match key.capsule_tag {
        CapsuleTag::Workflow => Some(LookupFailure::FindProviders { key, sender }),
        CapsuleTag::Receipt => Some(LookupFailure::NotFound { sender }),
    }
}

/// The providers other than this node.
pub open spec fn others(providers: Seq<PeerId>, me: Seq<char>) -> Seq<PeerId>
    decreases providers.len(),
{
    if providers.len() == 0 {
        Seq::empty()
    } else {
        let rest = others(providers.drop_last(), me);
        if providers.last().0@ == me {
            rest
        } else {
            rest.push(providers.last())
        }
    }
}

/// Ends a providers query with the providers found: this node is left out;
/// if no provider remains nothing happens and the query stays in the table.
/// Otherwise the entry leaves the table and, if someone waits, each
/// provider is asked for the record in turn.
pub fn on_providers_found(pending: &mut PendingQueries, id: u64, providers: Vec<PeerId>, me: &PeerId) -> (r: Vec<PeerRequest>)
    requires
        old(pending).wf(),
    ensures
        final(pending).wf(),
        others(providers@, me.0@).len() == 0 ==> final(pending)@ == old(pending)@ && r@.len() == 0,
        others(providers@, me.0@).len() > 0 ==> {
            &&& final(pending)@ == old(pending)@.remove(id)
            &&& (old(pending)@.contains_key(id) && old(pending)@[id].2 is Some) ==> {
                &&& r@.len() == others(providers@, me.0@).len()
                &&& forall|i: int|
                    0 <= i < r@.len() ==> (#[trigger] r@[i]).peer == others(providers@, me.0@)[i]
                        && r@[i].request.cid@ == old(pending)@[id].0 && r@[i].request.capsule_tag
                        == old(pending)@[id].1 && r@[i].sender == old(pending)@[id].2->Some_0
            }
            &&& !(old(pending)@.contains_key(id) && old(pending)@[id].2 is Some) ==> r@.len() == 0
        },
{
    let ghost all = providers@;
    let n = providers.len();
    let mut rest: Vec<PeerId> = Vec::new();
    let mut providers = providers;
    let mut rev: Vec<PeerId> = Vec::new();
    while providers.len() > 0
        invariant
            providers@.len() + rev@.len() == n,
            n == all.len(),
            forall|i: int| 0 <= i < providers@.len() ==> providers@[i] == all[i],
            forall|i: int| 0 <= i < rev@.len() ==> #[trigger] rev@[i] == all[n - 1 - i],
        decreases providers@.len(),
    {
        let p = providers.pop().unwrap();
        rev.push(p);
    }
    let mut i: usize = 0;
    while rev.len() > 0
        invariant
            rev@.len() + i == n,
            n == all.len(),
            forall|j: int| 0 <= j < rev@.len() ==> #[trigger] rev@[j] == all[n - 1 - j],
            rest@ == others(all.subrange(0, i as int), me.0@),
        decreases rev@.len(),
    {
        let p = rev.pop().unwrap();
        proof {
            assert(p == all[i as int]);
            assert(all.subrange(0, i + 1).drop_last() =~= all.subrange(0, i as int));
        }
        if !p.same(me) {
            rest.push(p);
        }
        i = i + 1;
    }
    assert(all.subrange(0, n as int) =~= all);
    if rest.len() == 0 {
        return Vec::new();
    }
    let (key, sender) = match pending.remove(id) {
        Some(e) => e,
        None => {
            return Vec::new();
        },
    };
    let s = match sender {
        Some(s) => s,
        None => {
            return Vec::new();
        },
    };
    let ghost others_all = rest@;
    let m = rest.len();
    let mut rrev: Vec<PeerId> = Vec::new();
    while rest.len() > 0
        invariant
            rest@.len() + rrev@.len() == m,
            m == others_all.len(),
            forall|j: int| 0 <= j < rest@.len() ==> rest@[j] == others_all[j],
            forall|j: int| 0 <= j < rrev@.len() ==> #[trigger] rrev@[j] == others_all[m - 1 - j],
        decreases rest@.len(),
    {
        let p = rest.pop().unwrap();
        rrev.push(p);
    }
    let mut out: Vec<PeerRequest> = Vec::new();
    while rrev.len() > 0
        invariant
            rrev@.len() + out@.len() == m,
            m == others_all.len(),
            forall|j: int| 0 <= j < rrev@.len() ==> #[trigger] rrev@[j] == others_all[m - 1 - j],
            forall|j: int|
                0 <= j < out@.len() ==> (#[trigger] out@[j]).peer == others_all[j] && out@[j].request.cid@
                    == key.cid@ && out@[j].request.capsule_tag == key.capsule_tag && out@[j].sender == s,
        decreases rrev@.len(),
    {
        let p = rrev.pop().unwrap();
        out.push(PeerRequest::with(p, key.copy(), s));
    }
    out
}

/// The protocol version that this node speaks.
pub open spec fn protocol_version_spec() -> Seq<char> {
    seq!['h', 'o', 'm', 'e', 's', 't', 'a', 'r', '/', '0', '.', '0', '.', '1']
}

/// Whether an identified peer speaks this node's protocol version; others
/// are ignored.
pub fn accepts_peer(protocol_version: &String) -> (r: bool)
    ensures
        r == (protocol_version@ == protocol_version_spec()),
{
    proof {
        reveal_strlit("homestar/0.0.1");
        assert("homestar/0.0.1"@ =~= protocol_version_spec());
    }
    *protocol_version == text("homestar/0.0.1")
}

/// Whether another connection may be made.
pub fn may_connect(connected_peers: usize, max_peers: usize) -> (r: bool)
    ensures
        r == (connected_peers < max_peers),
{
    connected_peers < max_peers
}

/// Why a request is refused.
#[derive(Debug, Clone, Copy, PartialEq, Eq)]
pub enum RequestError {
    /// The workflow information could not be made into a capsule.
    InvalidCapsule,
    /// The workflow information could not be found in time.
    Timeout,
    /// Only workflow information is served.
    Unsupported,
}

/// The answer to a peer's request: workflow information is served as its
/// capsule when it was found, other requests are refused.
pub fn answer_request(tag: CapsuleTag, found: Option<&WorkflowInfo>) -> (r: Result<Vec<u8>, RequestError>)
    ensures
        match tag {
            CapsuleTag::Receipt => r == Err::<Vec<u8>, RequestError>(RequestError::Unsupported),
            CapsuleTag::Workflow => match found {
                Some(info) => (r matches Ok(b) && b@ == info_capsule(info@)),
                None => r == Err::<Vec<u8>, RequestError>(RequestError::Timeout),
            },
        },
{
    match tag {
        CapsuleTag::Receipt => Err(RequestError::Unsupported),
        CapsuleTag::Workflow => match found {
            Some(info) => Ok(info.capsule()),
            None => Err(RequestError::Timeout),
        },
    }
}

/// Why a response does not answer a request.
#[derive(Debug, Clone, Copy, PartialEq, Eq)]
pub enum ResponseError {
    /// The response is not a capsule of the requested entity.
    Capsule(CapsuleError),
    /// A receipt came where workflow information was expected.
    UnexpectedReceipt,
}

/// Reads a peer's response to a request for the workflow information of
/// `key`.
pub fn on_response(key: &RequestResponseKey, response: &[u8], peer: PeerId) -> (r: Result<WorkflowInfo, ResponseError>)
    ensures
        match decode_capsule_spec(key.cid@, response@) {
            Ok(CapsuleModel::Workflow(m)) => (r matches Ok(info) && info@ == m),
            Ok(CapsuleModel::Receipt(_)) => r == Err::<WorkflowInfo, ResponseError>(ResponseError::UnexpectedReceipt),
            Err(e) => r == Err::<WorkflowInfo, ResponseError>(ResponseError::Capsule(e)),
        },
{
    match decode_capsule(&key.cid, Some(peer), response) {
        Ok(DecodedRecord::Workflow { info, .. }) => Ok(info),
        Ok(DecodedRecord::Receipt { .. }) => Err(ResponseError::UnexpectedReceipt),
        Err(e) => Err(ResponseError::Capsule(e)),
    }
}

} // verus!

verus! {

/// Why a gossiped receipt is not stored.
#[derive(Debug, Clone, Copy, PartialEq, Eq)]
pub enum GossipError {
    /// The message is not a canonical encoding.
    MalformedEncoding,
    /// The message does not hold a receipt.
    InvalidReceipt,
}

/// Takes a receipt gossiped on the receipts topic: it is stored (a receipt
/// stored already for its instruction wins). Nothing else is changed.
pub fn on_gossip_receipt(payload: &[u8], store: &mut ReceiptStore) -> (r: Result<Commit, GossipError>)
    requires
        old(store).wf(),
    ensures
        final(store).wf(),
        match decode_val(payload@) {
            None => r == Err::<Commit, GossipError>(GossipError::MalformedEncoding) && final(store)@ == old(store)@,
            Some(v) => match receipt_from_val(v) {
                None => r == Err::<Commit, GossipError>(GossipError::InvalidReceipt) && final(store)@ == old(store)@,
                Some(m) => r is Ok && final(store)@ == commit_spec(old(store)@, m),
            },
        },
{
    let v = match decode(payload) {
        Ok(v) => v,
        Err(_) => {
            return Err(GossipError::MalformedEncoding);
        },
    };
    match Receipt::from_value(v) {
        Some(receipt) => Ok(store.commit(receipt)),
        None => Err(GossipError::InvalidReceipt),
    }
}

/// Whether a peer whose connection closed leaves the routing table: it does
/// unless it is one of the configured peers (a configured address without a
/// peer identity names no peer).
pub fn forget_closed_peer(peer: &PeerId, configured: &Vec<Option<PeerId>>) -> (r: bool)
    ensures
        r == forall|i: int| 0 <= i < configured@.len() ==> !(#[trigger] configured@[i] matches Some(p) && p.0@ == peer.0@),
{
    let mut i: usize = 0;
    while i < configured.len()
        invariant
            i <= configured@.len(),
            forall|j: int| 0 <= j < i ==> !(#[trigger] configured@[j] matches Some(p) && p.0@ == peer.0@),
        decreases configured@.len() - i,
    {
        if let Some(p) = &configured[i] {
            if p.same(peer) {
                return false;
            }
        }
        i = i + 1;
    }
    true
}

} // verus!

verus! {

/// What is renewed with a rendezvous peer when its entry expires.
#[derive(Debug, Clone, Copy, PartialEq, Eq)]
pub enum Renewal {
    /// Discover peers again.
    Discover,
    /// Register again.
    Register,
}

/// Rendezvous renewals, each due at a deadline: periodic rendezvous actions
/// are driven by their expiry rather than by timers.
#[derive(Debug)]
pub struct RenewalCache {
    pub entries: Vec<(PeerId, Renewal, u64)>,
}

/// The entries due at `now`, in order.
pub open spec fn due(entries: Seq<(PeerId, Renewal, u64)>, now: u64) -> Seq<(PeerId, Renewal, u64)> {
    entries.filter(|e: (PeerId, Renewal, u64)| e.2 <= now)
}

/// The entries not yet due at `now`, in order.
pub open spec fn pending(entries: Seq<(PeerId, Renewal, u64)>, now: u64) -> Seq<(PeerId, Renewal, u64)> {
    entries.filter(|e: (PeerId, Renewal, u64)| e.2 > now)
}

impl RenewalCache {
    pub fn new() -> (r: RenewalCache)
        ensures
            r.entries@.len() == 0,
    {
        RenewalCache { entries: Vec::new() }
    }

    /// Schedules `what` with `peer` at `deadline`.
    pub fn schedule(&mut self, peer: PeerId, what: Renewal, deadline: u64)
        ensures
            final(self).entries@ == old(self).entries@.push((peer, what, deadline)),
    {
        self.entries.push((peer, what, deadline));
    }

    /// Takes out the renewals due at `now`, in the order they were
    /// scheduled; the others stay.
    pub fn expire(&mut self, now: u64) -> (r: Vec<(PeerId, Renewal)>)
        ensures
            final(self).entries@ == pending(old(self).entries@, now),
            r@.len() == due(old(self).entries@, now).len(),
            forall|i: int|
                0 <= i < r@.len() ==> (#[trigger] r@[i]).0 == due(old(self).entries@, now)[i].0 && r@[i].1 == due(
                    old(self).entries@,
                    now,
                )[i].1,
    {
        let ghost all = self.entries@;
        let n = self.entries.len();
        let mut rev: Vec<(PeerId, Renewal, u64)> = Vec::new();
        while self.entries.len() > 0
            invariant
                self.entries@.len() + rev@.len() == n,
                n == all.len(),
                forall|i: int| 0 <= i < self.entries@.len() ==> self.entries@[i] == all[i],
                forall|i: int| 0 <= i < rev@.len() ==> #[trigger] rev@[i] == all[n - 1 - i],
            decreases self.entries@.len(),
        {
            let e = self.entries.pop().unwrap();
            rev.push(e);
        }
        let mut out: Vec<(PeerId, Renewal)> = Vec::new();
        let mut i: usize = 0;
        while rev.len() > 0
            invariant
                rev@.len() + i == n,
                n == all.len(),
                forall|j: int| 0 <= j < rev@.len() ==> #[trigger] rev@[j] == all[n - 1 - j],
                self.entries@ == pending(all.subrange(0, i as int), now),
                out@.len() == due(all.subrange(0, i as int), now).len(),
                forall|j: int|
                    0 <= j < out@.len() ==> (#[trigger] out@[j]).0 == due(all.subrange(0, i as int), now)[j].0
                        && out@[j].1 == due(all.subrange(0, i as int), now)[j].1,
            decreases rev@.len(),
        {
            let e = rev.pop().unwrap();
            proof {
                assert(e == all[i as int]);
                let s = all.subrange(0, i + 1);
                assert(s.drop_last() =~= all.subrange(0, i as int));
                reveal(Seq::filter);
            }
            let ghost before = out@;
            if e.2 <= now {
                out.push((e.0, e.1));
            } else {
                self.entries.push(e);
            }
            i = i + 1;
        }
        proof {
            assert(all.subrange(0, n as int) =~= all);
        }
        out
    }
}

} // verus!

verus! {

/// Whether `p` is among `peers`.
fn has_peer(peers: &Vec<PeerId>, p: &PeerId) -> (r: bool)
    ensures
        r == exists|i: int| 0 <= i < peers@.len() && peers@[i].0@ == p.0@,
{
    let mut i: usize = 0;
    while i < peers.len()
        invariant
            i <= peers@.len(),
            forall|j: int| 0 <= j < i ==> peers@[j].0@ != p.0@,
        decreases peers@.len() - i,
    {
        if peers[i].same(p) {
            return true;
        }
        i = i + 1;
    }
    false
}

/// `p` is among `peers`.
pub open spec fn peer_in(peers: Seq<PeerId>, p: Seq<char>) -> bool {
    exists|i: int| 0 <= i < peers.len() && peers[i].0@ == p
}

/// The peers to dial among those registered with a rendezvous point: never
/// this node nor a connected peer, each once, in the order registered, and
/// no more than the connections left under `max_peers`.
pub fn dial_discovered(registered: &Vec<PeerId>, me: &PeerId, connected: &Vec<PeerId>, max_peers: usize) -> (r: Vec<PeerId>)
    ensures
        r@.len() <= (if connected@.len() < max_peers { max_peers - connected@.len() } else { 0 }),
        forall|i: int|
            0 <= i < r@.len() ==> (#[trigger] r@[i]).0@ != me.0@ && !peer_in(connected@, r@[i].0@) && peer_in(
                registered@,
                r@[i].0@,
            ),
        forall|i: int, j: int| 0 <= i < j < r@.len() ==> r@[i].0@ != r@[j].0@,
        r@.len() < (if connected@.len() < max_peers { max_peers - connected@.len() } else { 0 }) ==> forall|j: int|
            0 <= j < registered@.len() ==> (#[trigger] registered@[j]).0@ == me.0@ || peer_in(connected@, registered@[j].0@)
                || peer_in(r@, registered@[j].0@),
{
    let budget: usize = if connected.len() < max_peers { max_peers - connected.len() } else { 0 };
    let mut out: Vec<PeerId> = Vec::new();
    let mut i: usize = 0;
    while i < registered.len() && out.len() < budget
        invariant
            budget == (if connected@.len() < max_peers { max_peers - connected@.len() } else { 0 }),
            i <= registered@.len(),
            out@.len() <= budget,
            forall|k: int|
                0 <= k < out@.len() ==> (#[trigger] out@[k]).0@ != me.0@ && !peer_in(connected@, out@[k].0@) && peer_in(
                    registered@,
                    out@[k].0@,
                ),
            forall|a: int, b: int| 0 <= a < b < out@.len() ==> out@[a].0@ != out@[b].0@,
            forall|j: int|
                0 <= j < i ==> (#[trigger] registered@[j]).0@ == me.0@ || peer_in(connected@, registered@[j].0@) || peer_in(
                    out@,
                    registered@[j].0@,
                ),
        decreases registered@.len() - i,
    {
        let p = &registered[i];
        if !p.same(me) && !has_peer(connected, p) && !has_peer(&out, p) {
            let ghost before = out@;
            out.push(p.copy());
            proof {
                assert(out@[before.len() as int].0@ == p.0@);
                assert forall|k: int|
                    0 <= k < out@.len() implies (#[trigger] out@[k]).0@ != me.0@ && !peer_in(connected@, out@[k].0@) && peer_in(
                        registered@,
                        out@[k].0@,
                    ) by {
                    if k < before.len() {
                        assert(out@[k] == before[k]);
                    } else {
                        assert(registered@[i as int].0@ == out@[k].0@);
                    }
                }
                assert forall|a: int, b: int| 0 <= a < b < out@.len() implies out@[a].0@ != out@[b].0@ by {
                    assert(out@[a] == before[a]);
                    if b < before.len() {
                        assert(out@[b] == before[b]);
                    }
                }
                assert forall|j: int| 0 <= j < i + 1 implies (#[trigger] registered@[j]).0@ == me.0@ || peer_in(
                    connected@,
                    registered@[j].0@,
                ) || peer_in(out@, registered@[j].0@) by {
                    if j < i && peer_in(before, registered@[j].0@) {
                        let w = choose|w: int| 0 <= w < before.len() && before[w].0@ == registered@[j].0@;
                        assert(out@[w] == before[w]);
                    }
                    if j == i {
                        assert(out@[before.len() as int].0@ == registered@[j].0@);
                    }
                }
            }
        }
        i = i + 1;
    }
    out
}

} // verus!

verus! {

/// The latest cookie kept for rendezvous point `node`.
pub open spec fn latest_cookie(s: Seq<(PeerId, Vec<u8>)>, node: Seq<char>) -> Option<Seq<u8>>
    decreases s.len(),
{
    if s.len() == 0 {
        None
    } else if s.last().0.0@ == node {
        Some(s.last().1@)
    } else {
        latest_cookie(s.drop_last(), node)
    }
}

/// Discovery cookies by rendezvous point, so that a later discovery asks
/// only for registrations not seen yet.
#[derive(Debug)]
pub struct Cookies {
    entries: Vec<(PeerId, Vec<u8>)>,
}

impl Cookies {
    /// The cookie kept for `node`, if any.
    pub closed spec fn get(&self, node: Seq<char>) -> Option<Seq<u8>> {
        latest_cookie(self.entries@, node)
    }

    pub fn new() -> (r: Cookies)
        ensures
            forall|n: Seq<char>| #[trigger] r.get(n) is None,
    {
        Cookies { entries: Vec::new() }
    }

    /// Keeps `cookie` for `node`, in place of any earlier one.
    pub fn keep(&mut self, node: PeerId, cookie: Vec<u8>)
        ensures
            forall|n: Seq<char>| #[trigger] final(self).get(n) == if n == node.0@ {
                Some(cookie@)
            } else {
                old(self).get(n)
            },
    {
        let ghost before = self.entries@;
        self.entries.push((node, cookie));
        assert(self.entries@.drop_last() == before);
    }

    /// The cookie kept for `node`, if any.
    pub fn cookie(&self, node: &PeerId) -> (r: Option<Vec<u8>>)
        ensures
            match r {
                Some(c) => self.get(node.0@) == Some(c@),
                None => self.get(node.0@) is None,
            },
    {
        let mut i: usize = self.entries.len();
        assert(self.entries@.subrange(0, i as int) =~= self.entries@);
        while i > 0
            invariant
                i <= self.entries@.len(),
                latest_cookie(self.entries@, node.0@) == latest_cookie(self.entries@.subrange(0, i as int), node.0@),
            decreases i,
        {
            let ghost s = self.entries@.subrange(0, i as int);
            assert(s.drop_last() =~= self.entries@.subrange(0, i - 1));
            if self.entries[i - 1].0.same(node) {
                return Some(self.entries[i - 1].1.clone());
            }
            i = i - 1;
        }
        assert(self.entries@.subrange(0, 0) =~= Seq::<(PeerId, Vec<u8>)>::empty());
        None
    }
}

} // verus!
