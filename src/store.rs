//! The receipt store: receipts by the instruction they answer, written once
//! and read-only from then on.
use vstd::prelude::*;
use crate::cid::Cid;
use crate::receipt::{receipt_cid, Receipt, ReceiptModel};
use crate::workflow_info::{progress_wf, Resource, WorkflowInfo, WorkflowInfoModel};

verus! {

/// Whether a commit added the receipt or found one already stored.
#[derive(Debug, Clone, Copy, PartialEq, Eq)]
pub enum Commit {
    /// The receipt was new and is now stored.
    Added,
    /// A receipt for the same instruction was stored already and is kept.
    Existing,
}

/// The store after committing `r`: unchanged if a receipt for its
/// instruction is stored already, else with `r` added.
pub open spec fn commit_spec(s: Map<Seq<u8>, ReceiptModel>, r: ReceiptModel) -> Map<Seq<u8>, ReceiptModel> {
    if s.contains_key(r.instruction) {
        s
    } else {
        s.insert(r.instruction, r)
    }
}

/// Committing the same receipt a second time changes nothing and reports
/// the receipt as already stored.
pub proof fn lemma_commit_twice(s: Map<Seq<u8>, ReceiptModel>, r: ReceiptModel)
    ensures
        commit_spec(commit_spec(s, r), r) == commit_spec(s, r),
        commit_spec(s, r).contains_key(r.instruction),
{
}

/// Receipts keyed by the identifier of the instruction they answer.
#[derive(Debug)]
pub struct ReceiptStore {
    receipts: Vec<Receipt>,
}

impl View for ReceiptStore {
    type V = Map<Seq<u8>, ReceiptModel>;

    closed spec fn view(&self) -> Map<Seq<u8>, ReceiptModel> {
        Map::new(
            |k: Seq<u8>| exists|i: int| 0 <= i < self.receipts@.len() && self.receipts@[i].instruction@ == k,
            |k: Seq<u8>| self.receipts@[self.index_of(k)]@,
        )
    }
}

impl ReceiptStore {
    /// Position of the receipt for `k`.
    spec fn index_of(&self, k: Seq<u8>) -> int {
        choose|i: int| 0 <= i < self.receipts@.len() && self.receipts@[i].instruction@ == k
    }

    /// No instruction is answered twice.
    pub closed spec fn wf(&self) -> bool {
        forall|i: int, j: int|
            0 <= i < j < self.receipts@.len() ==> self.receipts@[i].instruction@
                != self.receipts@[j].instruction@
    }

    proof fn lemma_at(&self, i: int)
        requires
            self.wf(),
            0 <= i < self.receipts@.len(),
        ensures
            self@.contains_key(self.receipts@[i].instruction@),
            self@[self.receipts@[i].instruction@] == self.receipts@[i]@,
    {
        let k = self.receipts@[i].instruction@;
        assert(self@.contains_key(k));
        let j = self.index_of(k);
        assert(self.receipts@[j].instruction@ == k);
        if i != j {
            if i < j {
                assert(self.receipts@[i].instruction@ != self.receipts@[j].instruction@);
            } else {
                assert(self.receipts@[j].instruction@ != self.receipts@[i].instruction@);
            }
        }
    }

    /// Every stored receipt answers the instruction it is stored under.
    pub proof fn lemma_keys(&self)
        requires
            self.wf(),
        ensures
            forall|k: Seq<u8>| #[trigger] self@.contains_key(k) ==> self@[k].instruction == k,
    {
        assert forall|k: Seq<u8>| #[trigger] self@.contains_key(k) implies self@[k].instruction == k by {
            let i = self.index_of(k);
            self.lemma_at(i);
        }
    }

    /// An empty store.
    pub fn new() -> (r: ReceiptStore)
        ensures
            r.wf(),
            r@ == Map::<Seq<u8>, ReceiptModel>::empty(),
    {
        let r = ReceiptStore { receipts: Vec::new() };
        assert(r@ =~= Map::<Seq<u8>, ReceiptModel>::empty());
        r
    }

    /// Number of stored receipts.
    pub fn len(&self) -> (n: usize)
        requires
            self.wf(),
        ensures
            n == self@.len(),
    {
        proof {
            self.lemma_len();
        }
        self.receipts.len()
    }

    proof fn lemma_len(&self)
        requires
            self.wf(),
        ensures
            self@.dom().finite(),
            self@.len() == self.receipts@.len(),
        decreases self.receipts@.len(),
    {
        let keys = Seq::new(self.receipts@.len(), |i: int| self.receipts@[i].instruction@);
        assert(keys.no_duplicates());
        assert forall|k: Seq<u8>| self@.dom().contains(k) <==> keys.to_set().contains(k) by {
            if self@.dom().contains(k) {
                let i = choose|i: int| 0 <= i < self.receipts@.len() && self.receipts@[i].instruction@ == k;
                assert(keys[i] == k);
            }
            if keys.to_set().contains(k) {
                assert(keys.contains(k));
                let i = choose|i: int| 0 <= i < keys.len() && keys[i] == k;
                assert(self.receipts@[i].instruction@ == k);
            }
        }
        assert(self@.dom() =~= keys.to_set());
        keys.unique_seq_to_set();
    }

    /// The receipt for instruction `instruction`, if one is stored.
    pub fn find(&self, instruction: &Cid) -> (r: Option<Receipt>)
        requires
            self.wf(),
        ensures
            match r {
                Some(x) => self@.contains_key(instruction@) && x@ == self@[instruction@] && x@.instruction == instruction@,
                None => !self@.contains_key(instruction@),
            },
    {
        let mut i: usize = 0;
        while i < self.receipts.len()
            invariant
                self.wf(),
                i <= self.receipts@.len(),
                forall|j: int| 0 <= j < i ==> self.receipts@[j].instruction@ != instruction@,
            decreases self.receipts@.len() - i,
        {
            if self.receipts[i].instruction.same(instruction) {
                proof {
                    self.lemma_at(i as int);
                }
                return Some(self.receipts[i].copy());
            }
            i = i + 1;
        }
        None
    }

    /// Whether a receipt for `instruction` is stored.
    pub fn contains(&self, instruction: &Cid) -> (r: bool)
        requires
            self.wf(),
        ensures
            r == self@.contains_key(instruction@),
    {
        let mut i: usize = 0;
        while i < self.receipts.len()
            invariant
                self.wf(),
                i <= self.receipts@.len(),
                forall|j: int| 0 <= j < i ==> self.receipts@[j].instruction@ != instruction@,
            decreases self.receipts@.len() - i,
        {
            if self.receipts[i].instruction.same(instruction) {
                proof {
                    self.lemma_at(i as int);
                }
                return true;
            }
            i = i + 1;
        }
        false
    }

    /// The stored receipt whose own identifier is `cid`, if any.
    pub fn find_by_receipt_cid(&self, cid: &Cid) -> (r: Option<Receipt>)
        requires
            self.wf(),
        ensures
            match r {
                Some(x) => receipt_cid(x@) == cid@ && self@.contains_key(x@.instruction)
                    && self@[x@.instruction] == x@,
                None => forall|k: Seq<u8>| #[trigger] self@.contains_key(k) ==> receipt_cid(self@[k]) != cid@,
            },
    {
        let mut i: usize = 0;
        while i < self.receipts.len()
            invariant
                self.wf(),
                i <= self.receipts@.len(),
                forall|j: int| 0 <= j < i ==> receipt_cid(self.receipts@[j]@) != cid@,
            decreases self.receipts@.len() - i,
        {
            let c = self.receipts[i].cid();
            if c.same(cid) {
                proof {
                    self.lemma_at(i as int);
                }
                return Some(self.receipts[i].copy());
            }
            i = i + 1;
        }
        assert forall|k: Seq<u8>| #[trigger] self@.contains_key(k) implies receipt_cid(self@[k]) != cid@ by {
            let j = self.index_of(k);
            self.lemma_at(j);
        }
        None
    }

    /// Stores `receipt` unless a receipt for its instruction is stored
    /// already, in which case the stored one is kept and nothing changes.
    pub fn commit(&mut self, receipt: Receipt) -> (r: Commit)
        requires
            old(self).wf(),
        ensures
            final(self).wf(),
            final(self)@ == commit_spec(old(self)@, receipt@),
            r == (if old(self)@.contains_key(receipt@.instruction) {
                Commit::Existing
            } else {
                Commit::Added
            }),
    {
        if self.contains(&receipt.instruction) {
            return Commit::Existing;
        }
        let ghost before = *self;
        let ghost k = receipt@.instruction;
        self.receipts.push(receipt);
        proof {
            let n = before.receipts@.len();
            assert forall|i: int, j: int| 0 <= i < j < self.receipts@.len() implies self.receipts@[i].instruction@
                != self.receipts@[j].instruction@ by {
                if j == n {
                    assert(before.receipts@[i].instruction@ != k);
                } else {
                    assert(self.receipts@[i] == before.receipts@[i]);
                    assert(self.receipts@[j] == before.receipts@[j]);
                }
            }
            assert(self.receipts@[n as int] == receipt);
            assert forall|key: Seq<u8>| #[trigger] self@.contains_key(key) <==> before@.insert(k, receipt@).contains_key(key) by {
                if self@.contains_key(key) {
                    let j = choose|j: int| 0 <= j < self.receipts@.len() && self.receipts@[j].instruction@ == key;
                    if j < n {
                        assert(self.receipts@[j] == before.receipts@[j]);
                        assert(before.receipts@[j].instruction@ == key);
                        assert(before@.contains_key(key));
                    } else {
                        assert(key == k);
                    }
                }
                if before@.contains_key(key) {
                    let j = choose|j: int| 0 <= j < before.receipts@.len() && before.receipts@[j].instruction@ == key;
                    assert(self.receipts@[j] == before.receipts@[j]);
                    assert(self.receipts@[j].instruction@ == key);
                }
                if key == k {
                    assert(self.receipts@[n as int].instruction@ == key);
                }
            }
            assert forall|key: Seq<u8>| #[trigger] self@.contains_key(key) implies self@[key] == before@.insert(k, receipt@)[key] by {
                let j = self.index_of(key);
                self.lemma_at(j);
                if j < n {
                    assert(self.receipts@[j] == before.receipts@[j]);
                    before.lemma_at(j);
                }
            }
            assert(self@ =~= before@.insert(k, receipt@));
        }
        Commit::Added
    }
}

/// Workflow information by workflow identifier, written by the worker
/// that owns each run.
#[derive(Debug)]
pub struct WorkflowStore {
    infos: Vec<WorkflowInfo>,
}

impl View for WorkflowStore {
    type V = Map<Seq<u8>, WorkflowInfoModel>;

    closed spec fn view(&self) -> Map<Seq<u8>, WorkflowInfoModel> {
        Map::new(
            |k: Seq<u8>| exists|i: int| 0 <= i < self.infos@.len() && self.infos@[i].cid@ == k,
            |k: Seq<u8>| {
                let i = choose|i: int| 0 <= i < self.infos@.len() && self.infos@[i].cid@ == k;
                self.infos@[i]@
            },
        )
    }
}

impl WorkflowStore {
    /// No workflow appears twice, and each one's progress is well formed.
    pub closed spec fn wf(&self) -> bool {
        &&& forall|i: int, j: int| 0 <= i < j < self.infos@.len() ==> self.infos@[i].cid@ != self.infos@[j].cid@
        &&& forall|i: int| 0 <= i < self.infos@.len() ==> progress_wf(#[trigger] self.infos@[i]@)
    }

    proof fn lemma_at(&self, i: int)
        requires
            self.wf(),
            0 <= i < self.infos@.len(),
        ensures
            self@.contains_key(self.infos@[i].cid@),
            self@[self.infos@[i].cid@] == self.infos@[i]@,
    {
        let k = self.infos@[i].cid@;
        assert(self@.contains_key(k));
        let j = choose|j: int| 0 <= j < self.infos@.len() && self.infos@[j].cid@ == k;
        if i != j {
            if i < j {
                assert(self.infos@[i].cid@ != self.infos@[j].cid@);
            } else {
                assert(self.infos@[j].cid@ != self.infos@[i].cid@);
            }
        }
    }

    /// An empty table.
    pub fn new() -> (r: WorkflowStore)
        ensures
            r.wf(),
            r@ == Map::<Seq<u8>, WorkflowInfoModel>::empty(),
    {
        let r = WorkflowStore { infos: Vec::new() };
        assert(r@ =~= Map::<Seq<u8>, WorkflowInfoModel>::empty());
        r
    }

    fn position(&self, cid: &Cid) -> (r: Option<usize>)
        requires
            self.wf(),
        ensures
            match r {
                Some(i) => i < self.infos@.len() && self.infos@[i as int].cid@ == cid@,
                None => !self@.contains_key(cid@),
            },
    {
        let mut i: usize = 0;
        while i < self.infos.len()
            invariant
                i <= self.infos@.len(),
                forall|j: int| 0 <= j < i ==> self.infos@[j].cid@ != cid@,
            decreases self.infos@.len() - i,
        {
            if self.infos[i].cid.same(cid) {
                return Some(i);
            }
            i = i + 1;
        }
        None
    }

    /// The information stored for workflow `cid`, if any.
    pub fn find(&self, cid: &Cid) -> (r: Option<WorkflowInfo>)
        requires
            self.wf(),
        ensures
            match r {
                Some(x) => self@.contains_key(cid@) && x@ == self@[cid@] && progress_wf(x@) && x@.cid == cid@,
                None => !self@.contains_key(cid@),
            },
    {
        match self.position(cid) {
            Some(i) => {
                proof {
                    self.lemma_at(i as int);
                }
                Some(self.infos[i].copy())
            },
            None => None,
        }
    }

    /// Stores `info` as the information of its workflow, replacing any.
    pub fn put(&mut self, info: WorkflowInfo)
        requires
            old(self).wf(),
            progress_wf(info@),
        ensures
            final(self).wf(),
            final(self)@ == old(self)@.insert(info@.cid, info@),
    {
        let ghost before = *self;
        let ghost k = info@.cid;
        let ghost v = info@;
        match self.position(&info.cid) {
            Some(i) => {
                self.infos.set(i, info);
                proof {
                    assert forall|a: int, b: int| 0 <= a < b < self.infos@.len() implies self.infos@[a].cid@
                        != self.infos@[b].cid@ by {
                        if a != i {
                            assert(self.infos@[a] == before.infos@[a]);
                        }
                        if b != i {
                            assert(self.infos@[b] == before.infos@[b]);
                        }
                    }
                    assert forall|a: int| 0 <= a < self.infos@.len() implies progress_wf(#[trigger] self.infos@[a]@) by {
                        if a != i {
                            assert(self.infos@[a] == before.infos@[a]);
                        }
                    }
                    assert forall|q: Seq<u8>| #[trigger] self@.contains_key(q) <==> before@.insert(k, v).contains_key(q) by {
                        if self@.contains_key(q) {
                            let j = choose|j: int| 0 <= j < self.infos@.len() && self.infos@[j].cid@ == q;
                            if j != i {
                                assert(self.infos@[j] == before.infos@[j]);
                            }
                        }
                        if before@.contains_key(q) {
                            let j = choose|j: int| 0 <= j < before.infos@.len() && before.infos@[j].cid@ == q;
                            if j != i {
                                assert(self.infos@[j] == before.infos@[j]);
                            } else {
                                assert(self.infos@[j].cid@ == q);
                            }
                        }
                        if q == k {
                            assert(self.infos@[i as int].cid@ == k);
                        }
                    }
                    assert forall|q: Seq<u8>| #[trigger] self@.contains_key(q) implies self@[q] == before@.insert(k, v)[q] by {
                        let j = choose|j: int| 0 <= j < self.infos@.len() && self.infos@[j].cid@ == q;
                        self.lemma_at(j);
                        if j != i {
                            assert(self.infos@[j] == before.infos@[j]);
                            before.lemma_at(j);
                        }
                    }
                    assert(self@ =~= before@.insert(k, v));
                }
            },
            None => {
                self.infos.push(info);
                proof {
                    let n = before.infos@.len();
                    assert forall|a: int, b: int| 0 <= a < b < self.infos@.len() implies self.infos@[a].cid@
                        != self.infos@[b].cid@ by {
                        assert(self.infos@[a] == before.infos@[a]);
                        if b < n {
                            assert(self.infos@[b] == before.infos@[b]);
                        } else if before.infos@[a].cid@ == k {
                            assert(before@.contains_key(k));
                        }
                    }
                    assert forall|a: int| 0 <= a < self.infos@.len() implies progress_wf(#[trigger] self.infos@[a]@) by {
                        if a < n {
                            assert(self.infos@[a] == before.infos@[a]);
                        }
                    }
                    assert forall|q: Seq<u8>| #[trigger] self@.contains_key(q) <==> before@.insert(k, v).contains_key(q) by {
                        if self@.contains_key(q) {
                            let j = choose|j: int| 0 <= j < self.infos@.len() && self.infos@[j].cid@ == q;
                            if j < n {
                                assert(self.infos@[j] == before.infos@[j]);
                            }
                        }
                        if before@.contains_key(q) {
                            let j = choose|j: int| 0 <= j < before.infos@.len() && before.infos@[j].cid@ == q;
                            assert(self.infos@[j] == before.infos@[j]);
                        }
                        if q == k {
                            assert(self.infos@[n as int].cid@ == k);
                        }
                    }
                    assert forall|q: Seq<u8>| #[trigger] self@.contains_key(q) implies self@[q] == before@.insert(k, v)[q] by {
                        let j = choose|j: int| 0 <= j < self.infos@.len() && self.infos@[j].cid@ == q;
                        self.lemma_at(j);
                        if j < n {
                            assert(self.infos@[j] == before.infos@[j]);
                            before.lemma_at(j);
                        }
                    }
                    assert(self@ =~= before@.insert(k, v));
                }
            },
        }
    }
}

/// The information of a workflow run as it starts. It always has the
/// workflow's identifier, number of tasks and indexed resources. Progress
/// stored for the workflow with that number of tasks carries over a
/// restart, with the stored name; otherwise the information is new, named
/// `name`, with no progress, and is stored.
pub fn init_info(
    store: &mut WorkflowStore,
    cid: Cid,
    num_tasks: u32,
    name: Option<String>,
    resources: Vec<(Cid, Vec<Resource>)>,
) -> (r: WorkflowInfo)
    requires
        old(store).wf(),
    ensures
        final(store).wf(),
        progress_wf(r@),
        r@.cid == cid@,
        r@.num_tasks == num_tasks,
        r.resources == resources,
        old(store)@.contains_key(cid@) && old(store)@[cid@].num_tasks == num_tasks ==> {
            &&& r@.progress == old(store)@[cid@].progress
            &&& r@.name == old(store)@[cid@].name
            &&& final(store)@ == old(store)@
        },
        !(old(store)@.contains_key(cid@) && old(store)@[cid@].num_tasks == num_tasks) ==> {
            &&& r.name == name
            &&& r@.progress.len() == 0
            &&& final(store)@ == old(store)@.insert(cid@, r@)
        },
{
    match store.find(&cid) {
        Some(info) => {
            if info.num_tasks == num_tasks {
                let r = WorkflowInfo {
                    cid: info.cid,
                    name: info.name,
                    num_tasks,
                    progress: info.progress,
                    progress_count: info.progress_count,
                    resources,
                };
                return r;
            }
        },
        None => {},
    }
    let info = WorkflowInfo::new(cid, num_tasks, name, resources);
    store.put(info.copy());
    info
}

} // verus!
