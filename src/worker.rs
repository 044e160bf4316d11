//! The worker: drives a workflow's plan to completion, resolving awaited
//! results, recording receipts and progress, and reporting what it did.
use vstd::prelude::*;
use crate::cid::Cid;
use crate::instruction_result::InstructionResult;
use crate::receipt::{receipt_cid, Receipt, ReceiptModel};
use crate::scheduler::{awaits_view, batched, deps_of, layered, cycle_witness, satisfied_in, schedule, split_at_first_unsatisfied, TaskPlan};
use crate::store::{init_info, Commit, ReceiptStore, WorkflowStore, commit_spec};
use crate::value::{Val, Value, view_entries, lemma_view_entries};
use crate::workflow::{awaited, indexed_resources, indexed_resources_spec, parse_input, parse_input_spec, workflow_cid, workflow_val, Arg, ArgModel, AwaitKind, Task, args_view};
use crate::workflow_info::{indexed_view, progress_wf, Resource, ResourceModel, WorkflowInfo};
use crate::cid::cid_of_encoding;
use crate::codec::canonical_encoding;
use crate::receipt::text;

verus! {

/// Results of instructions by instruction identifier, the latest entry for
/// an identifier winning.
#[derive(Debug)]
pub struct LinkMap {
    entries: Vec<(Cid, InstructionResult<Value>)>,
}

/// The latest entry for `k`.
pub open spec fn latest(s: Seq<(Cid, InstructionResult<Value>)>, k: Seq<u8>) -> Option<InstructionResult<Val>>
    decreases s.len(),
{
    if s.len() == 0 {
        None
    } else if s.last().0@ == k {
        Some(s.last().1@)
    } else {
        latest(s.drop_last(), k)
    }
}

impl LinkMap {
    /// The result held for `k`, if any.
    pub closed spec fn get(&self, k: Seq<u8>) -> Option<InstructionResult<Val>> {
        latest(self.entries@, k)
    }

    /// An empty map.
    pub fn new() -> (r: LinkMap)
        ensures
            forall|k: Seq<u8>| #[trigger] r.get(k) is None,
    {
        LinkMap { entries: Vec::new() }
    }

    /// Holds `v` for `k` from now on.
    pub fn insert(&mut self, k: Cid, v: InstructionResult<Value>)
        ensures
            forall|q: Seq<u8>|
                #[trigger] final(self).get(q) == if q == k@ {
                    Some(v@)
                } else {
                    old(self).get(q)
                },
    {
        let ghost before = self.entries@;
        self.entries.push((k, v));
        assert(self.entries@.drop_last() == before);
    }

    /// Holds `v` for `k` unless a result is held for `k` already.
    pub fn insert_if_absent(&mut self, k: Cid, v: InstructionResult<Value>)
        ensures
            forall|q: Seq<u8>|
                #[trigger] final(self).get(q) == if q == k@ && old(self).get(q) is None {
                    Some(v@)
                } else {
                    old(self).get(q)
                },
    {
        if self.lookup(&k).is_none() {
            self.insert(k, v);
        }
    }

    /// The result held for `k`, if any.
    pub fn lookup(&self, k: &Cid) -> (r: Option<InstructionResult<Value>>)
        ensures
            match r {
                Some(x) => self.get(k@) == Some(x@),
                None => self.get(k@) is None,
            },
    {
        let mut i: usize = self.entries.len();
        assert(self.entries@.subrange(0, i as int) =~= self.entries@);
        while i > 0
            invariant
                i <= self.entries@.len(),
                latest(self.entries@, k@) == latest(self.entries@.subrange(0, i as int), k@),
            decreases i,
        {
            let ghost s = self.entries@.subrange(0, i as int);
            assert(s.drop_last() =~= self.entries@.subrange(0, i - 1));
            if self.entries[i - 1].0.same(k) {
                return Some(self.entries[i - 1].1.copy());
            }
            i = i - 1;
        }
        assert(self.entries@.subrange(0, 0) =~= Seq::<(Cid, InstructionResult<Value>)>::empty());
        None
    }
}

/// Fetched resources: module bytes by URL and blobs by identifier.
#[derive(Debug)]
pub struct ResourceCache {
    pub entries: Vec<(Resource, Vec<u8>)>,
}

/// The bytes of the first entry for `r`.
pub open spec fn first_bytes(s: Seq<(Resource, Vec<u8>)>, r: ResourceModel) -> Option<Seq<u8>>
    decreases s.len(),
{
    if s.len() == 0 {
        None
    } else if s[0].0@ == r {
        Some(s[0].1@)
    } else {
        first_bytes(s.subrange(1, s.len() as int), r)
    }
}

impl ResourceCache {
    /// The bytes fetched for `r`, if any.
    pub fn get(&self, r: &Resource) -> (out: Option<Vec<u8>>)
        ensures
            match out {
                Some(b) => first_bytes(self.entries@, r@) == Some(b@),
                None => first_bytes(self.entries@, r@) is None,
            },
    {
        let mut i: usize = 0;
        assert(self.entries@.subrange(0, self.entries@.len() as int) =~= self.entries@);
        while i < self.entries.len()
            invariant
                i <= self.entries@.len(),
                first_bytes(self.entries@, r@) == first_bytes(
                    self.entries@.subrange(i as int, self.entries@.len() as int),
                    r@,
                ),
            decreases self.entries@.len() - i,
        {
            let ghost s = self.entries@.subrange(i as int, self.entries@.len() as int);
            assert(s.subrange(1, s.len() as int) =~= self.entries@.subrange(i + 1, self.entries@.len() as int));
            if self.entries[i].0.same(r) {
                return Some(self.entries[i].1.clone());
            }
            i = i + 1;
        }
        None
    }
}

/// What the worker reports to the event handler.
#[derive(Debug)]
pub enum WorkerEvent {
    /// Receipts already stored for these instructions, replayed for observers.
    ReplayReceipts { instructions: Vec<Cid>, workflow: Cid, name: String },
    /// A new receipt was recorded.
    CapturedReceipt { instruction: Cid, receipt: Cid, workflow: Cid, name: String },
    /// A receipt found on the network was stored.
    StoredRecord { receipt: Cid },
}

impl WorkerEvent {
    /// Whether observers see this as a replay.
    pub open spec fn spec_replayed(&self) -> bool {
        self is ReplayReceipts
    }

    /// Whether observers see this as a replay.
    pub fn replayed(&self) -> (r: bool)
        ensures
            r == self.spec_replayed(),
    {
        match self {
            WorkerEvent::ReplayReceipts { .. } => true,
            _ => false,
        }
    }
}

/// The instruction identifiers of a batch.
pub open spec fn batch_cids(batch: Seq<usize>, instructions: Seq<Cid>) -> Seq<Seq<u8>> {
    Seq::new(batch.len(), |k: int| instructions[batch[k] as int]@)
}

/// The instruction identifiers of all batches, in order.
pub open spec fn plan_cids(batches: Seq<Vec<usize>>, instructions: Seq<Cid>) -> Seq<Seq<u8>>
    decreases batches.len(),
{
    if batches.len() == 0 {
        Seq::empty()
    } else {
        plan_cids(batches.drop_last(), instructions) + batch_cids(batches.last()@, instructions)
    }
}

/// Why a run stopped.
#[derive(Debug, Clone, Copy, PartialEq, Eq)]
pub enum WorkerError {
    /// An awaited result could be found nowhere.
    UnresolvedCid,
    /// A task's input could not be read.
    InvalidInput,
    /// A task's module was not fetched.
    ResourceUnavailable,
    /// The evaluator failed on a task.
    TaskFailed,
    /// A task names an operation that is not registered.
    UnknownOp,
    /// An awaited result has the wrong outcome for its await: a failure
    /// where success was awaited, or the other way round.
    AwaitMismatch,
}

/// Where an awaited result was found.
#[derive(Debug)]
pub enum Resolution {
    /// Found without the network.
    Found(InstructionResult<Value>),
    /// Only the network may have it.
    Missing,
}

} // verus!

verus! {
/// Receipt metadata naming the function that ran.
pub open spec fn op_meta(func: Seq<char>) -> Val {
    Val::Dict(seq![(seq!['o', 'p'], Val::Text(func))])
}

/// The receipt that a worker records for an output.
pub open spec fn output_receipt(instruction: Seq<u8>, invocation: Seq<u8>, output: Val, func: Seq<char>) -> ReceiptModel {
    ReceiptModel {
        instruction,
        ran: invocation,
        out: InstructionResult::Success(output),
        meta: op_meta(func),
        issuer: None,
        prf: Seq::empty(),
    }
}

/// The events so far: at most one replay, and if any, first; every replay
/// and captured receipt names the workflow and the run.
pub open spec fn events_ok(events: Seq<WorkerEvent>, started: bool, replayed: Seq<Seq<u8>>, workflow: Seq<u8>, name: Seq<char>) -> bool {
    &&& !started ==> events.len() == 0
    &&& started && replayed.len() > 0 ==> events.len() > 0 && events[0] is ReplayReceipts && crate::receipt::cids_view(
        events[0]->ReplayReceipts_instructions@,
    ) == replayed
    &&& forall|i: int|
        0 <= i < events.len() && (#[trigger] events[i]).spec_replayed() ==> i == 0 && replayed.len() > 0
    &&& forall|i: int|
        0 <= i < events.len() && (#[trigger] events[i]) is ReplayReceipts ==> events[i]->ReplayReceipts_workflow@
            == workflow && events[i]->ReplayReceipts_name@ == name
    &&& forall|i: int|
        0 <= i < events.len() && (#[trigger] events[i]) is CapturedReceipt ==> events[i]->CapturedReceipt_workflow@
            == workflow && events[i]->CapturedReceipt_name@ == name
}

/// The instructions of the captured receipts among `events`, in order.
pub open spec fn captured_instrs(events: Seq<WorkerEvent>) -> Seq<Seq<u8>>
    decreases events.len(),
{
    if events.len() == 0 {
        Seq::empty()
    } else if events.last() is CapturedReceipt {
        captured_instrs(events.drop_last()).push(events.last()->CapturedReceipt_instruction@)
    } else {
        captured_instrs(events.drop_last())
    }
}

/// The instructions of the records whose receipts the store took, in order.
pub open spec fn added_instrs(log: Seq<RunRecord>, instructions: Seq<Cid>) -> Seq<Seq<u8>>
    decreases log.len(),
{
    if log.len() == 0 {
        Seq::empty()
    } else if log.last().commit == Commit::Added {
        added_instrs(log.drop_last(), instructions).push(instructions[log.last().node as int]@)
    } else {
        added_instrs(log.drop_last(), instructions)
    }
}

/// What a run did for one task: the module, function and arguments handed
/// to the evaluator, its output, the receipt recorded and whether the store
/// took it, and the results known when the arguments were resolved.
pub struct RunRecord {
    pub node: usize,
    pub module: Vec<u8>,
    pub func: String,
    pub args: Vec<InstructionResult<Value>>,
    pub output: Value,
    pub receipt: Cid,
    pub commit: Commit,
    pub known: Ghost<Map<Seq<u8>, InstructionResult<Val>>>,
}

/// A run of one workflow.
pub struct Worker {
    pub info: WorkflowInfo,
    pub name: String,
    pub tasks: Vec<Task>,
    pub instructions: Vec<Cid>,
    pub invocations: Vec<Cid>,
    pub plan: TaskPlan,
    pub linkmap: LinkMap,
    pub resources: ResourceCache,
    pub events: Vec<WorkerEvent>,
    pub log: Vec<RunRecord>,
    pub started: bool,
}

/// Every task of every batch is a task of the workflow.
pub open spec fn batches_in(batches: Seq<Vec<usize>>, n: nat) -> bool {
    forall|b: int, k: int| 0 <= b < batches.len() && 0 <= k < batches[b]@.len() ==> (#[trigger] batches[b]@[k]) < n
}

/// The tasks of the batches, in order.
pub open spec fn flat(batches: Seq<Vec<usize>>) -> Seq<usize>
    decreases batches.len(),
{
    if batches.len() == 0 {
        Seq::empty()
    } else {
        flat(batches.drop_last()) + batches.last()@
    }
}

proof fn lemma_flat_in(batches: Seq<Vec<usize>>, n: nat)
    requires
        batches_in(batches, n),
    ensures
        forall|i: int| 0 <= i < flat(batches).len() ==> (#[trigger] flat(batches)[i]) < n,
    decreases batches.len(),
{
    if batches.len() > 0 {
        let d = batches.drop_last();
        assert(batches_in(d, n)) by {
            assert forall|b: int, k: int| 0 <= b < d.len() && 0 <= k < d[b]@.len() implies (#[trigger] d[b]@[k]) < n by {
                assert(d[b] == batches[b]);
            }
        }
        lemma_flat_in(d, n);
        assert forall|i: int| 0 <= i < flat(batches).len() implies (#[trigger] flat(batches)[i]) < n by {
            if i >= flat(d).len() {
                let k = i - flat(d).len();
                assert(flat(batches)[i] == batches.last()@[k]);
                assert(batches[batches.len() - 1]@[k] < n);
            }
        }
    }
}

/// The tasks of the batches, in order.
pub fn flatten(batches: &Vec<Vec<usize>>) -> (r: Vec<usize>)
    ensures
        r@ == flat(batches@),
{
    let mut out: Vec<usize> = Vec::new();
    let mut b: usize = 0;
    while b < batches.len()
        invariant
            b <= batches@.len(),
            out@ == flat(batches@.subrange(0, b as int)),
        decreases batches@.len() - b,
    {
        let mut k: usize = 0;
        let ghost start = out@;
        while k < batches[b].len()
            invariant
                b < batches@.len(),
                k <= batches@[b as int]@.len(),
                out@ == start + batches@[b as int]@.subrange(0, k as int),
            decreases batches@[b as int]@.len() - k,
        {
            out.push(batches[b][k]);
            assert(batches@[b as int]@.subrange(0, k + 1) =~= batches@[b as int]@.subrange(0, k as int).push(
                batches@[b as int]@[k as int],
            ));
            assert(out@ =~= start + batches@[b as int]@.subrange(0, k + 1));
            k = k + 1;
        }
        proof {
            assert(batches@[b as int]@.subrange(0, k as int) =~= batches@[b as int]@);
            assert(batches@.subrange(0, b + 1).drop_last() =~= batches@.subrange(0, b as int));
        }
        b = b + 1;
    }
    assert(batches@.subrange(0, b as int) =~= batches@);
    out
}

/// The result of instruction `c` that a run finds without the network:
/// its own results first, then fetched blobs, then the store.
pub open spec fn local_result(
    lm: LinkMap,
    rc: Seq<(Resource, Vec<u8>)>,
    store: Map<Seq<u8>, ReceiptModel>,
    c: Seq<u8>,
) -> Option<InstructionResult<Val>> {
    match lm.get(c) {
        Some(x) => Some(x),
        None => match first_bytes(rc, ResourceModel::Cid(c)) {
            Some(b) => Some(InstructionResult::Success(Val::Bytes(b))),
            None => if store.contains_key(c) {
                Some(store[c].out)
            } else {
                None
            },
        },
    }
}

/// All results a run finds without the network, by instruction.
pub open spec fn known(lm: LinkMap, rc: Seq<(Resource, Vec<u8>)>, store: Map<Seq<u8>, ReceiptModel>) -> Map<
    Seq<u8>,
    InstructionResult<Val>,
> {
    Map::new(|c: Seq<u8>| local_result(lm, rc, store, c) is Some, |c: Seq<u8>| local_result(lm, rc, store, c)->Some_0)
}

/// Whether a result has the outcome an await waits for: `await/ok` a
/// success, `await/error` a failure, `await/*` any.
pub open spec fn accepts(k: AwaitKind, r: InstructionResult<Val>) -> bool {
    match k {
        AwaitKind::Success => r is Success,
        AwaitKind::Failure => r is Error,
        AwaitKind::Any => true,
    }
}

/// `v` is what an argument becomes: a plain value is handed on as it is
/// (`Just`); an awaited one is the known result of its instruction, tag
/// and all, when its outcome is the awaited one.
pub open spec fn arg_resolved(a: ArgModel, v: InstructionResult<Val>, known: Map<Seq<u8>, InstructionResult<Val>>) -> bool {
    match a {
        ArgModel::Value(x) => v == InstructionResult::Just(x),
        ArgModel::Await(k, c) => known.contains_key(c) && known[c] == v && accepts(k, v),
    }
}

/// Mathematical form of resolved arguments.
pub open spec fn results_view(s: Seq<InstructionResult<Value>>) -> Seq<InstructionResult<Val>> {
    Seq::new(s.len(), |i: int| s[i]@)
}

/// Every argument is resolved to the value at the same place.
pub open spec fn args_resolved(args: Seq<ArgModel>, vals: Seq<InstructionResult<Val>>, known: Map<Seq<u8>, InstructionResult<Val>>) -> bool {
    &&& vals.len() == args.len()
    &&& forall|i: int| 0 <= i < args.len() ==> arg_resolved(#[trigger] args[i], vals[i], known)
}

/// Every awaited argument has a known result with the awaited outcome.
pub open spec fn args_local(args: Seq<ArgModel>, known: Map<Seq<u8>, InstructionResult<Val>>) -> bool {
    forall|i: int|
        0 <= i < args.len() && (#[trigger] args[i]) is Await ==> known.contains_key(args[i]->Await_1) && accepts(
            args[i]->Await_0,
            known[args[i]->Await_1],
        )
}

/// `a`'s entries are all in `b`, unchanged.
pub open spec fn grows(a: Map<Seq<u8>, InstructionResult<Val>>, b: Map<Seq<u8>, InstructionResult<Val>>) -> bool {
    forall|c: Seq<u8>| #[trigger] a.contains_key(c) ==> b.contains_key(c) && b[c] == a[c]
}

/// The store keeps every receipt it had.
pub open spec fn store_kept(a: Map<Seq<u8>, ReceiptModel>, b: Map<Seq<u8>, ReceiptModel>) -> bool {
    forall|q: Seq<u8>| #[trigger] a.contains_key(q) ==> b.contains_key(q) && b[q] == a[q]
}

/// The only registered operation: run a WebAssembly function.
pub open spec fn wasm_run_op() -> Seq<char> {
    seq!['w', 'a', 's', 'm', '/', 'r', 'u', 'n']
}

/// The task names the registered operation.
pub open spec fn op_ok(t: Task) -> bool {
    t.run.op@ == wasm_run_op()
}

/// The task's input reads as a function and arguments.
pub open spec fn input_ok(t: Task) -> bool {
    parse_input_spec(t.run.input@) is Some
}

/// The task's module was fetched.
pub open spec fn module_ok(rc: Seq<(Resource, Vec<u8>)>, t: Task) -> bool {
    first_bytes(rc, ResourceModel::Url(t.run.resource@)) is Some
}

/// What stops a run before it starts: a task with an unknown operation,
/// else one whose input does not read, else one whose module is missing.
pub open spec fn run_check(tasks: Seq<Task>, rc: Seq<(Resource, Vec<u8>)>, nodes: Seq<usize>) -> Option<WorkerError> {
    if exists|i: int| 0 <= i < nodes.len() && !op_ok(tasks[#[trigger] nodes[i] as int]) {
        Some(WorkerError::UnknownOp)
    } else if exists|i: int| 0 <= i < nodes.len() && !input_ok(tasks[#[trigger] nodes[i] as int]) {
        Some(WorkerError::InvalidInput)
    } else if exists|i: int| 0 <= i < nodes.len() && !module_ok(rc, tasks[#[trigger] nodes[i] as int]) {
        Some(WorkerError::ResourceUnavailable)
    } else {
        None
    }
}

impl Worker {
    /// The instruction identifiers of the batches already satisfied.
    pub open spec fn replayed_cids(&self) -> Seq<Seq<u8>> {
        plan_cids(self.plan.ran@, self.instructions@)
    }

    /// The results this run finds without the network, given the store.
    pub open spec fn known_with(&self, store: Map<Seq<u8>, ReceiptModel>) -> Map<Seq<u8>, InstructionResult<Val>> {
        known(self.linkmap, self.resources.entries@, store)
    }

    /// Task `node` was run with these inputs: its operation is registered,
    /// its input names `func` and arguments that `args` resolves against
    /// `known`, and `module` is its fetched module.
    pub open spec fn inputs_ok(
        &self,
        node: int,
        module: Seq<u8>,
        func: Seq<char>,
        args: Seq<InstructionResult<Val>>,
        known: Map<Seq<u8>, InstructionResult<Val>>,
    ) -> bool {
        &&& 0 <= node < self.tasks@.len()
        &&& op_ok(self.tasks@[node])
        &&& parse_input_spec(self.tasks@[node].run.input@) matches Some((f, a)) && f == func && args_resolved(
            a,
            args,
            known,
        )
        &&& first_bytes(self.resources.entries@, ResourceModel::Url(self.tasks@[node].run.resource@)) == Some(module)
    }

    /// A record of this run: its inputs, and the receipt of its output.
    pub open spec fn record_ok(&self, e: RunRecord) -> bool {
        &&& self.inputs_ok(e.node as int, e.module@, e.func@, results_view(e.args@), e.known@)
        &&& e.receipt@ == receipt_cid(
            output_receipt(self.instructions@[e.node as int]@, self.invocations@[e.node as int]@, e.output@, e.func@),
        )
    }

    pub open spec fn wf(&self) -> bool {
        &&& self.tasks@.len() == self.instructions@.len()
        &&& self.tasks@.len() == self.invocations@.len()
        &&& batches_in(self.plan.ran@, self.tasks@.len())
        &&& batches_in(self.plan.run@, self.tasks@.len())
        &&& progress_wf(self.info@)
        &&& events_ok(self.events@, self.started, self.replayed_cids(), self.info@.cid, self.name@)
        &&& self.log@.len() <= flat(self.plan.run@).len()
        &&& !self.started ==> self.log@.len() == 0
        &&& forall|i: int| 0 <= i < self.log@.len() ==> (#[trigger] self.log@[i]).node == flat(self.plan.run@)[i]
        &&& forall|i: int| 0 <= i < self.log@.len() ==> self.record_ok(#[trigger] self.log@[i])
        &&& captured_instrs(self.events@) == added_instrs(self.log@, self.instructions@)
    }

    /// The parts of a run that its steps never change.
    pub open spec fn same_run(&self, other: &Worker) -> bool {
        &&& self.name == other.name
        &&& self.tasks == other.tasks
        &&& self.instructions == other.instructions
        &&& self.invocations == other.invocations
        &&& self.plan == other.plan
        &&& self.resources == other.resources
        &&& self.info@.cid == other.info@.cid
        &&& self.info@.num_tasks == other.info@.num_tasks
    }

    /// A run of `tasks` under `plan`, with fetched `resources`.
    pub fn new(tasks: Vec<Task>, info: WorkflowInfo, name: String, plan: TaskPlan, resources: ResourceCache) -> (r: Worker)
        requires
            batches_in(plan.ran@, tasks@.len()),
            batches_in(plan.run@, tasks@.len()),
            progress_wf(info@),
        ensures
            r.wf(),
            !r.started,
            r.events@.len() == 0,
            r.log@.len() == 0,
            r.info@ == info@,
            r.name == name,
            r.tasks@ == tasks@,
            r.plan == plan,
            r.resources == resources,
            forall|k: Seq<u8>| #[trigger] r.linkmap.get(k) is None,
            forall|j: int| 0 <= j < tasks@.len() ==> (#[trigger] r.instructions@[j])@ == crate::workflow::instruction_cid(tasks@[j].run@),
    {
        let mut instructions: Vec<Cid> = Vec::new();
        let mut invocations: Vec<Cid> = Vec::new();
        let mut j: usize = 0;
        while j < tasks.len()
            invariant
                j <= tasks@.len(),
                instructions@.len() == j,
                invocations@.len() == j,
                forall|m: int| 0 <= m < j ==> (#[trigger] instructions@[m])@ == crate::workflow::instruction_cid(tasks@[m].run@),
            decreases tasks@.len() - j,
        {
            instructions.push(tasks[j].run.cid());
            invocations.push(tasks[j].invocation_cid());
            j = j + 1;
        }
        Worker {
            info,
            name,
            tasks,
            instructions,
            invocations,
            plan,
            linkmap: LinkMap::new(),
            resources,
            events: Vec::new(),
            log: Vec::new(),
            started: false,
        }
    }

    /// Where the awaited result of instruction `c` is found without the
    /// network: the results of this run, then the fetched blobs, then the
    /// store.
    pub fn resolve(&self, c: &Cid, store: &ReceiptStore) -> (r: Resolution)
        requires
            store.wf(),
        ensures
            match local_result(self.linkmap, self.resources.entries@, store@, c@) {
                Some(x) => r matches Resolution::Found(y) && y@ == x,
                None => r is Missing,
            },
    {
        if let Some(x) = self.linkmap.lookup(c) {
            return Resolution::Found(x);
        }
        if let Some(b) = self.resources.get(&Resource::Cid(c.clone())) {
            return Resolution::Found(InstructionResult::Success(Value::Bytes(b)));
        }
        match store.find(c) {
            Some(receipt) => Resolution::Found(receipt.out),
            None => Resolution::Missing,
        }
    }
}

impl Worker {
    /// Pushes an event that is neither a replay nor a captured receipt.
    fn report(&mut self, e: WorkerEvent)
        requires
            old(self).wf(),
            old(self).started,
            e is StoredRecord,
        ensures
            final(self).wf(),
            final(self).events@ == old(self).events@.push(e),
            final(self).same_run(&*old(self)),
            final(self).info == old(self).info,
            final(self).linkmap == old(self).linkmap,
            final(self).log == old(self).log,
            final(self).started == old(self).started,
    {
        let ghost before = self.events@;
        self.events.push(e);
        assert(self.events@.drop_last() == before);
        assert forall|i: int| 0 <= i < self.events@.len() && (#[trigger] self.events@[i]).spec_replayed()
            implies i == 0 && self.replayed_cids().len() > 0 by {
            if i < before.len() {
                assert(self.events@[i] == before[i]);
            }
        }
        assert forall|i: int| 0 <= i < self.events@.len() && (#[trigger] self.events@[i]) is ReplayReceipts
            implies self.events@[i]->ReplayReceipts_workflow@ == self.info@.cid && self.events@[i]->ReplayReceipts_name@ == self.name@ by {
            if i < before.len() {
                assert(self.events@[i] == before[i]);
            }
        }
        assert forall|i: int| 0 <= i < self.events@.len() && (#[trigger] self.events@[i]) is CapturedReceipt
            implies self.events@[i]->CapturedReceipt_workflow@ == self.info@.cid && self.events@[i]->CapturedReceipt_name@ == self.name@ by {
            if i < before.len() {
                assert(self.events@[i] == before[i]);
            }
        }
    }

    /// Begins the run: the stored results of the satisfied batches become
    /// known to the run and count as progress, and when there are any, one
    /// replay event lists their instructions.
    pub fn start(&mut self, store: &ReceiptStore)
        requires
            old(self).wf(),
            !old(self).started,
            store.wf(),
        ensures
            final(self).wf(),
            final(self).started,
            final(self).same_run(&*old(self)),
            final(self).log == old(self).log,
            old(self).info@.progress.is_prefix_of(final(self).info@.progress),
            final(self).events@.len() == if old(self).replayed_cids().len() > 0 { 1int } else { 0int },
            forall|j: int|
                0 <= j < old(self).replayed_cids().len() && store@.contains_key(old(self).replayed_cids()[j]) ==> {
                    let c = #[trigger] old(self).replayed_cids()[j];
                    &&& final(self).linkmap.get(c) == Some(store@[c].out)
                    &&& (final(self).info@.progress.contains(receipt_cid(store@[c])) || final(self).info@.progress_count
                        == final(self).info@.num_tasks)
                },
    {
        let ghost ran = self.plan.ran@;
        let ghost instrs = self.instructions@;
        let mut replay: Vec<Cid> = Vec::new();
        let mut b: usize = 0;
        let nb = self.plan.ran.len();
        while b < nb
            invariant
                self.wf(),
                !self.started,
                store.wf(),
                self.same_run(&*old(self)),
                self.log == old(self).log,
                old(self).info@.progress.is_prefix_of(self.info@.progress),
                ran == self.plan.ran@,
                instrs == self.instructions@,
                nb == ran.len(),
                b <= nb,
                crate::receipt::cids_view(replay@) == plan_cids(ran.subrange(0, b as int), instrs),
                forall|j: int|
                    0 <= j < replay@.len() && store@.contains_key(replay@[j]@) ==> {
                        let c = (#[trigger] replay@[j])@;
                        &&& self.linkmap.get(c) == Some(store@[c].out)
                        &&& (self.info@.progress.contains(receipt_cid(store@[c])) || self.info@.progress_count
                            == self.info@.num_tasks)
                    },
            decreases nb - b,
        {
            let nk = self.plan.ran[b].len();
            let mut k: usize = 0;
            while k < nk
                invariant
                    self.wf(),
                    !self.started,
                    store.wf(),
                    self.same_run(&*old(self)),
                    self.log == old(self).log,
                    old(self).info@.progress.is_prefix_of(self.info@.progress),
                    ran == self.plan.ran@,
                    instrs == self.instructions@,
                    nb == ran.len(),
                    b < nb,
                    nk == ran[b as int]@.len(),
                    k <= nk,
                    crate::receipt::cids_view(replay@) == plan_cids(ran.subrange(0, b as int), instrs)
                        + batch_cids(ran[b as int]@.subrange(0, k as int), instrs),
                    forall|j: int|
                        0 <= j < replay@.len() && store@.contains_key(replay@[j]@) ==> {
                            let c = (#[trigger] replay@[j])@;
                            &&& self.linkmap.get(c) == Some(store@[c].out)
                            &&& (self.info@.progress.contains(receipt_cid(store@[c])) || self.info@.progress_count
                                == self.info@.num_tasks)
                        },
                decreases nk - k,
            {
                let node = self.plan.ran[b][k];
                let c = self.instructions[node].clone();
                let ghost before_lm = self.linkmap;
                let ghost before_p = self.info@;
                if let Some(receipt) = store.find(&c) {
                    let rc = receipt.cid();
                    self.linkmap.insert(c.clone(), receipt.out);
                    self.info.increment_progress(rc);
                    proof {
                        assert(before_p.progress.is_prefix_of(self.info@.progress)) by {
                            if self.info@.progress != before_p.progress {
                                assert(self.info@.progress == before_p.progress.push(rc@));
                            }
                        }
                        assert forall|j: int|
                            0 <= j < replay@.len() && store@.contains_key(replay@[j]@) implies {
                                let q = (#[trigger] replay@[j])@;
                                &&& self.linkmap.get(q) == Some(store@[q].out)
                                &&& (self.info@.progress.contains(receipt_cid(store@[q])) || self.info@.progress_count
                                    == self.info@.num_tasks)
                            } by {
                            let q = replay@[j]@;
                            assert(before_p.progress.is_prefix_of(self.info@.progress));
                            if before_p.progress.contains(receipt_cid(store@[q])) {
                                let w = choose|w: int| 0 <= w < before_p.progress.len() && before_p.progress[w] == receipt_cid(store@[q]);
                                assert(self.info@.progress[w] == before_p.progress[w]);
                            }
                        }
                        if before_p.progress.contains(rc@) {
                            let w = choose|w: int| 0 <= w < before_p.progress.len() && before_p.progress[w] == rc@;
                            assert(self.info@.progress[w] == rc@);
                        } else if before_p.progress_count < before_p.num_tasks {
                            assert(self.info@.progress[self.info@.progress.len() - 1] == rc@);
                        }
                    }
                }
                let ghost before = replay@;
                replay.push(c);
                proof {
                    assert(crate::receipt::cids_view(replay@) =~= crate::receipt::cids_view(before).push(instrs[node as int]@));
                    assert(batch_cids(ran[b as int]@.subrange(0, k + 1), instrs) =~= batch_cids(
                        ran[b as int]@.subrange(0, k as int),
                        instrs,
                    ).push(instrs[node as int]@));
                    assert(crate::receipt::cids_view(replay@) =~= plan_cids(ran.subrange(0, b as int), instrs)
                        + batch_cids(ran[b as int]@.subrange(0, k + 1), instrs));
                    assert forall|j: int|
                        0 <= j < replay@.len() && store@.contains_key(replay@[j]@) implies {
                            let q = (#[trigger] replay@[j])@;
                            &&& self.linkmap.get(q) == Some(store@[q].out)
                            &&& (self.info@.progress.contains(receipt_cid(store@[q])) || self.info@.progress_count
                                == self.info@.num_tasks)
                        } by {
                        if j < before.len() {
                            assert(replay@[j] == before[j]);
                        }
                    }
                }
                k = k + 1;
            }
            proof {
                assert(ran[b as int]@.subrange(0, k as int) =~= ran[b as int]@);
                assert(ran.subrange(0, b + 1).drop_last() =~= ran.subrange(0, b as int));
            }
            b = b + 1;
        }
        proof {
            assert(ran.subrange(0, b as int) =~= ran);
        }
        self.started = true;
        if replay.len() > 0 {
            let e = WorkerEvent::ReplayReceipts {
                instructions: replay,
                workflow: self.info.cid.clone(),
                name: self.name.clone(),
            };
            let ghost before = self.events@;
            self.events.push(e);
            assert(self.events@.drop_last() == before);
        }
    }

    /// Takes the network's answer for instruction `c`: a receipt for `c` is
    /// committed to the store (a receipt stored already wins), its output
    /// becomes known to the run, and the storing is reported. No answer, or
    /// a receipt for another instruction, leaves `c` unresolved and changes
    /// nothing.
    pub fn accept_network(&mut self, c: &Cid, reply: Option<Receipt>, store: &mut ReceiptStore) -> (r: Result<InstructionResult<Value>, WorkerError>)
        requires
            old(self).wf(),
            old(self).started,
            old(store).wf(),
        ensures
            final(self).wf(),
            final(store).wf(),
            final(self).same_run(&*old(self)),
            final(self).info == old(self).info,
            final(self).log == old(self).log,
            final(self).started,
            match reply {
                Some(x) => if x@.instruction == c@ {
                    &&& final(store)@ == commit_spec(old(store)@, x@)
                    &&& r matches Ok(out) && out@ == final(store)@[c@].out
                    &&& final(self).events@.len() == old(self).events@.len() + 1
                    &&& final(self).events@.drop_last() == old(self).events@
                    &&& final(self).events@.last() is StoredRecord
                    &&& final(self).events@.last()->StoredRecord_receipt@ == receipt_cid(x@)
                    &&& forall|q: Seq<u8>| #[trigger] final(self).linkmap.get(q) == if q == c@ && old(self).linkmap.get(q) is None {
                        Some(final(store)@[c@].out)
                    } else {
                        old(self).linkmap.get(q)
                    }
                } else {
                    r == Err::<InstructionResult<Value>, WorkerError>(WorkerError::UnresolvedCid) && final(store)@ == old(store)@
                        && final(self).events@ == old(self).events@ && final(self).linkmap == old(self).linkmap
                },
                None => r == Err::<InstructionResult<Value>, WorkerError>(WorkerError::UnresolvedCid) && final(store)@ == old(store)@
                    && final(self).events@ == old(self).events@ && final(self).linkmap == old(self).linkmap,
            },
    {
        let receipt = match reply {
            Some(x) => x,
            None => {
                return Err(WorkerError::UnresolvedCid);
            },
        };
        if !receipt.instruction.same(c) {
            return Err(WorkerError::UnresolvedCid);
        }
        let rc = receipt.cid();
        let ghost rm = receipt@;
        store.commit(receipt);
        let stored = match store.find(c) {
            Some(s) => s,
            None => {
                return Err(WorkerError::UnresolvedCid);
            },
        };
        let out = stored.out;
        self.linkmap.insert_if_absent(c.clone(), out.copy());
        self.report(WorkerEvent::StoredRecord { receipt: rc });
        proof {
            assert(self.events@.drop_last() =~= old(self).events@);
        }
        Ok(out)
    }

    /// Records the output of task `node`, run with the given module,
    /// function and arguments: its receipt, with the function as metadata,
    /// becomes the run's result for its instruction, counts as progress and
    /// is committed to the store; the run's record grows by one. Only a
    /// receipt that the store did not hold is reported, so a receipt is
    /// never reported twice.
    pub fn record(
        &mut self,
        node: usize,
        module: Vec<u8>,
        func: String,
        args: Vec<InstructionResult<Value>>,
        output: Value,
        known: Ghost<Map<Seq<u8>, InstructionResult<Val>>>,
        store: &mut ReceiptStore,
    ) -> (r: Commit)
        requires
            old(self).wf(),
            old(self).started,
            old(store).wf(),
            old(self).log@.len() < flat(old(self).plan.run@).len(),
            flat(old(self).plan.run@)[old(self).log@.len() as int] == node,
            old(self).inputs_ok(node as int, module@, func@, results_view(args@), known@),
        ensures
            ({
                let m = output_receipt(
                    old(self).instructions@[node as int]@,
                    old(self).invocations@[node as int]@,
                    output@,
                    func@,
                );
                &&& final(self).wf()
                &&& final(store).wf()
                &&& final(store)@ == commit_spec(old(store)@, m)
                &&& r == (if old(store)@.contains_key(m.instruction) { Commit::Existing } else { Commit::Added })
                &&& final(self).log@.len() == old(self).log@.len() + 1
                &&& final(self).log@.drop_last() == old(self).log@
                &&& final(self).log@.last().node == node
                &&& final(self).log@.last().module == module
                &&& final(self).log@.last().func == func
                &&& final(self).log@.last().args == args
                &&& final(self).log@.last().output == output
                &&& final(self).log@.last().commit == r
                &&& forall|q: Seq<u8>| #[trigger] final(self).linkmap.get(q) == if q == m.instruction {
                    Some(m.out)
                } else {
                    old(self).linkmap.get(q)
                }
                &&& final(self).info@.progress.contains(receipt_cid(m)) || final(self).info@.progress_count
                    == final(self).info@.num_tasks
                &&& old(self).info@.progress.is_prefix_of(final(self).info@.progress)
                &&& r == Commit::Added ==> final(self).events@.len() == old(self).events@.len() + 1
                    && final(self).events@.drop_last() == old(self).events@
                    && final(self).events@.last() is CapturedReceipt
                    && final(self).events@.last()->CapturedReceipt_instruction@ == m.instruction
                    && final(self).events@.last()->CapturedReceipt_receipt@ == receipt_cid(m)
                &&& r == Commit::Existing ==> final(self).events@ == old(self).events@
            }),
            final(self).same_run(&*old(self)),
            final(self).started,
    {
        let mut meta_entries: Vec<(String, Value)> = Vec::new();
        meta_entries.push((text("op"), Value::Text(func.clone())));
        proof {
            reveal_strlit("op");
            assert("op"@ =~= seq!['o', 'p']);
            lemma_view_entries(meta_entries@);
            assert(view_entries(meta_entries@) =~= seq![(seq!['o', 'p'], Val::Text(func@))]);
        }
        let receipt = Receipt {
            instruction: self.instructions[node].clone(),
            ran: self.invocations[node].clone(),
            out: InstructionResult::Success(output.copy()),
            meta: Value::Dict(meta_entries),
            issuer: None,
            prf: Vec::new(),
        };
        proof {
            assert(crate::receipt::cids_view(receipt.prf@) =~= Seq::<Seq<u8>>::empty());
        }
        let rc = receipt.cid();
        let instruction = receipt.instruction.clone();
        self.linkmap.insert(receipt.instruction.clone(), receipt.out.copy());
        let ghost before = self.info@.progress;
        self.info.increment_progress(rc.clone());
        proof {
            if before.contains(rc@) {
                assert(self.info@.progress == before);
            } else {
                assert(before.is_prefix_of(before.push(rc@)));
                if self.info@.progress == before.push(rc@) {
                    assert(self.info@.progress[before.len() as int] == rc@);
                }
            }
        }
        let committed = store.commit(receipt);
        let ghost log_before = self.log@;
        self.log.push(RunRecord { node, module, func, args, output, receipt: rc.clone(), commit: committed, known });
        proof {
            assert(self.log@.drop_last() =~= log_before);
            assert(self.log@.last().node == node && self.log@.last().commit == committed);
            assert forall|i: int| 0 <= i < self.log@.len() implies (#[trigger] self.log@[i]).node == flat(self.plan.run@)[i]
                && self.record_ok(self.log@[i]) by {
                if i < log_before.len() {
                    assert(self.log@[i] == log_before[i]);
                }
            }
        }
        match committed {
            Commit::Added => {
                let ghost ev_before = self.events@;
                let e = WorkerEvent::CapturedReceipt {
                    instruction,
                    receipt: rc,
                    workflow: self.info.cid.clone(),
                    name: self.name.clone(),
                };
                self.events.push(e);
                proof {
                    assert(self.events@.drop_last() =~= ev_before);
                    assert forall|i: int| 0 <= i < self.events@.len() && (#[trigger] self.events@[i]).spec_replayed()
                        implies i == 0 && self.replayed_cids().len() > 0 by {
                        if i < ev_before.len() {
                            assert(self.events@[i] == ev_before[i]);
                        }
                    }
                    assert forall|i: int| 0 <= i < self.events@.len() && (#[trigger] self.events@[i]) is ReplayReceipts
                        implies self.events@[i]->ReplayReceipts_workflow@ == self.info@.cid && self.events@[i]->ReplayReceipts_name@ == self.name@ by {
                        if i < ev_before.len() {
                            assert(self.events@[i] == ev_before[i]);
                        }
                    }
                    assert forall|i: int| 0 <= i < self.events@.len() && (#[trigger] self.events@[i]) is CapturedReceipt
                        implies self.events@[i]->CapturedReceipt_workflow@ == self.info@.cid && self.events@[i]->CapturedReceipt_name@ == self.name@ by {
                        if i < ev_before.len() {
                            assert(self.events@[i] == ev_before[i]);
                        }
                    }
                }
            },
            Commit::Existing => {},
        }
        committed
    }
}

/// All tasks of all batches have stored receipts.
pub open spec fn all_stored(batches: Seq<Vec<usize>>, instructions: Seq<Cid>, store: Map<Seq<u8>, ReceiptModel>) -> bool {
    forall|b: int, k: int|
        0 <= b < batches.len() && 0 <= k < batches[b]@.len() ==> store.contains_key(
            instructions[#[trigger] batches[b]@[k] as int]@,
        )
}

} // verus!


verus! {

/// Whether `u` is among `urls`.
fn contains_text(urls: &Vec<String>, u: &String) -> (r: bool)
    ensures
        r == exists|i: int| 0 <= i < urls@.len() && urls@[i]@ == u@,
{
    let mut i: usize = 0;
    while i < urls.len()
        invariant
            i <= urls@.len(),
            forall|j: int| 0 <= j < i ==> urls@[j]@ != u@,
        decreases urls@.len() - i,
    {
        if urls[i] == *u {
            return true;
        }
        i = i + 1;
    }
    false
}

/// Some task of the batches uses module location `u`.
pub open spec fn url_used(tasks: Seq<Task>, run: Seq<Vec<usize>>, u: Seq<char>) -> bool {
    exists|b: int, k: int|
        0 <= b < run.len() && 0 <= k < run[b]@.len() && tasks[run[b]@[k] as int].run.resource@ == u
}

/// `u` is among `urls`.
pub open spec fn url_listed(urls: Seq<String>, u: Seq<char>) -> bool {
    exists|i: int| 0 <= i < urls.len() && urls[i]@ == u
}

/// The module location of task `k` of batch `b`.
pub open spec fn url_of(tasks: Seq<Task>, run: Seq<Vec<usize>>, b: int, k: int) -> Seq<char> {
    tasks[run[b]@[k] as int].run.resource@
}

/// The module locations that the batches to run need, each once, in order
/// of first use: what to fetch before running.
pub fn urls_to_fetch(tasks: &Vec<Task>, run: &Vec<Vec<usize>>) -> (r: Vec<String>)
    requires
        batches_in(run@, tasks@.len()),
    ensures
        forall|i: int, j: int| 0 <= i < j < r@.len() ==> r@[i]@ != r@[j]@,
        forall|i: int| 0 <= i < r@.len() ==> url_used(tasks@, run@, (#[trigger] r@[i])@),
        forall|b: int, k: int|
            0 <= b < run@.len() && 0 <= k < run@[b]@.len() ==> url_listed(r@, #[trigger] url_of(tasks@, run@, b, k)),
{
    let mut out: Vec<String> = Vec::new();
    let mut b: usize = 0;
    while b < run.len()
        invariant
            batches_in(run@, tasks@.len()),
            b <= run@.len(),
            forall|i: int, j: int| 0 <= i < j < out@.len() ==> out@[i]@ != out@[j]@,
            forall|i: int| 0 <= i < out@.len() ==> url_used(tasks@, run@, (#[trigger] out@[i])@),
            forall|bb: int, k: int|
                0 <= bb < b && 0 <= k < run@[bb]@.len() ==> url_listed(out@, #[trigger] url_of(tasks@, run@, bb, k)),
        decreases run@.len() - b,
    {
        let mut k: usize = 0;
        while k < run[b].len()
            invariant
                batches_in(run@, tasks@.len()),
                b < run@.len(),
                k <= run@[b as int]@.len(),
                forall|i: int, j: int| 0 <= i < j < out@.len() ==> out@[i]@ != out@[j]@,
                forall|i: int| 0 <= i < out@.len() ==> url_used(tasks@, run@, (#[trigger] out@[i])@),
                forall|bb: int, kk: int|
                    0 <= bb < b && 0 <= kk < run@[bb]@.len() ==> url_listed(out@, #[trigger] url_of(tasks@, run@, bb, kk)),
                forall|kk: int| 0 <= kk < k ==> url_listed(out@, #[trigger] url_of(tasks@, run@, b as int, kk)),
            decreases run@[b as int]@.len() - k,
        {
            let node = run[b][k];
            let u = &tasks[node].run.resource;
            let ghost before = out@;
            assert(url_of(tasks@, run@, b as int, k as int) == u@);
            if !contains_text(&out, u) {
                out.push(u.clone());
                proof {
                    assert(out@[before.len() as int]@ == u@);
                    assert forall|i: int| 0 <= i < out@.len() implies url_used(tasks@, run@, (#[trigger] out@[i])@) by {
                        if i < before.len() {
                            assert(out@[i] == before[i]);
                        } else {
                            assert(url_of(tasks@, run@, b as int, k as int) == out@[i]@);
                        }
                    }
                    assert forall|x: Seq<char>| url_listed(before, x) implies url_listed(out@, x) by {
                        let i = choose|i: int| 0 <= i < before.len() && before[i]@ == x;
                        assert(out@[i] == before[i]);
                    }
                    assert(url_listed(out@, u@));
                }
            }
            k = k + 1;
        }
        b = b + 1;
    }
    out
}

} // verus!

verus! {

/// What a worker tells the runner.
#[derive(Debug)]
pub enum WorkerMessage {
    /// The worker of this workflow run is gone.
    Dropped(Cid),
}

impl Worker {
    /// The message that releases this run's entry with the runner.
    pub fn dropped_message(&self) -> (m: WorkerMessage)
        ensures
            m matches WorkerMessage::Dropped(c) && c@ == self.info@.cid,
    {
        WorkerMessage::Dropped(self.info.cid.clone())
    }
}

/// In a run, the replay comes first and only once: if any batch was
/// satisfied, the first event lists the instructions of all satisfied
/// tasks, each once, and every other event is new.
pub proof fn lemma_replay_first(w: Worker)
    requires
        w.wf(),
        w.started,
    ensures
        w.replayed_cids().len() > 0 ==> w.events@[0] is ReplayReceipts
            && crate::receipt::cids_view(w.events@[0]->ReplayReceipts_instructions@) == w.replayed_cids(),
        forall|i: int| 0 < i < w.events@.len() ==> !(#[trigger] w.events@[i]).spec_replayed(),
        w.replayed_cids().len() == 0 ==> forall|i: int| 0 <= i < w.events@.len() ==> !(#[trigger] w.events@[i]).spec_replayed(),
{
}

} // verus!

verus! {

/// A task whose instruction `q` answers was recorded by the run.
pub open spec fn logged_instr(w: Worker, q: Seq<u8>) -> bool {
    exists|j: int| 0 <= j < w.log@.len() && w.instructions@[(#[trigger] w.log@[j]).node as int]@ == q
}

/// Task `t` awaits the result of instruction `q`.
pub open spec fn awaits_in(t: Task, q: Seq<u8>) -> bool {
    let a = parse_input_spec(t.run.input@)->Some_0.1;
    exists|i: int| 0 <= i < a.len() && (#[trigger] a[i]) is Await && a[i]->Await_1 == q
}

/// Some task among `nodes` awaits the result of instruction `q`.
pub open spec fn run_awaits(tasks: Seq<Task>, nodes: Seq<usize>, q: Seq<u8>) -> bool {
    exists|x: int| 0 <= x < nodes.len() && awaits_in(tasks[(#[trigger] nodes[x]) as int], q)
}

/// Every receipt the store gained answers a recorded task, or an
/// instruction that a task among `nodes` awaits.
pub open spec fn gained_from(before: Map<Seq<u8>, ReceiptModel>, after: Map<Seq<u8>, ReceiptModel>, w: Worker, nodes: Seq<usize>) -> bool {
    forall|q: Seq<u8>|
        #[trigger] after.contains_key(q) ==> before.contains_key(q) || logged_instr(w, q) || run_awaits(w.tasks@, nodes, q)
}

/// Whether `r` has the outcome that `k` awaits.
fn kind_accepts(k: AwaitKind, r: &InstructionResult<Value>) -> (b: bool)
    ensures
        b == accepts(k, r@),
{
    match (k, r) {
        (AwaitKind::Success, InstructionResult::Success(_)) => true,
        (AwaitKind::Failure, InstructionResult::Error(_)) => true,
        (AwaitKind::Any, _) => true,
        _ => false,
    }
}

impl Worker {
    /// The arguments of a task, resolved: a plain value is handed on as it
    /// is (`Just`); an awaited one becomes the result of its instruction,
    /// with its tag, found by [`Worker::resolve`] or, when that finds
    /// nothing, through `find` on the network (see
    /// [`Worker::accept_network`]). A result whose outcome is not the
    /// awaited one is refused.
    pub fn resolve_args<F>(&mut self, args: Vec<Arg>, store: &mut ReceiptStore, find: &F) -> (r: Result<Vec<InstructionResult<Value>>, WorkerError>)
        where
            F: Fn(&Cid) -> Option<Receipt>,
        requires
            old(self).wf(),
            old(self).started,
            old(store).wf(),
            forall|c: &Cid| #[trigger] find.requires((c,)),
        ensures
            final(self).wf(),
            final(store).wf(),
            final(self).same_run(&*old(self)),
            final(self).started,
            final(self).info == old(self).info,
            final(self).log == old(self).log,
            store_kept(old(store)@, final(store)@),
            old(self).events@.is_prefix_of(final(self).events@),
            forall|i: int| old(self).events@.len() <= i < final(self).events@.len() ==> (#[trigger] final(self).events@[i]) is StoredRecord,
            grows(old(self).known_with(old(store)@), final(self).known_with(final(store)@)),
            r matches Ok(vals) ==> args_resolved(args_view(args@), results_view(vals@), final(self).known_with(final(store)@)),
            args_local(args_view(args@), old(self).known_with(old(store)@)) ==> r is Ok,
            forall|q: Seq<u8>| #[trigger] final(store)@.contains_key(q) ==> old(store)@.contains_key(q) || exists|i: int|
                0 <= i < args@.len() && (#[trigger] args@[i]) is Await && args@[i]->Await_1@ == q,
            r matches Err(e) ==> (e == WorkerError::UnresolvedCid && exists|i: int|
                0 <= i < args@.len() && (#[trigger] args@[i]) is Await && !old(self).known_with(old(store)@).contains_key(
                    args@[i]->Await_1@,
                ) && (call_ensures(find, (&args@[i]->Await_1,), None::<Receipt>) || exists|x: Receipt|
                    call_ensures(find, (&args@[i]->Await_1,), Some(x)) && x@.instruction != args@[i]->Await_1@)) || (e == WorkerError::AwaitMismatch && exists|i: int|
                0 <= i < args@.len() && (#[trigger] args@[i]) is Await && final(self).known_with(final(store)@).contains_key(
                    args@[i]->Await_1@,
                ) && !accepts(args@[i]->Await_0, final(self).known_with(final(store)@)[args@[i]->Await_1@])),
    {
        let ghost all = args@;
        let ghost av = args_view(args@);
        let ghost k_old = self.known_with(store@);
        let n = args.len();
        let mut rev: Vec<Arg> = Vec::new();
        let mut rest = args;
        while rest.len() > 0
            invariant
                rest@.len() + rev@.len() == n,
                n == all.len(),
                all == args@,
                forall|i: int| 0 <= i < rest@.len() ==> rest@[i] == all[i],
                forall|i: int| 0 <= i < rev@.len() ==> #[trigger] rev@[i] == all[n - 1 - i],
            decreases rest@.len(),
        {
            let a = rest.pop().unwrap();
            rev.push(a);
        }
        let mut vals: Vec<InstructionResult<Value>> = Vec::new();
        while rev.len() > 0
            invariant
                self.wf(),
                self.started,
                store.wf(),
                self.same_run(&*old(self)),
                self.info == old(self).info,
                self.log == old(self).log,
                store_kept(old(store)@, store@),
                old(self).events@.is_prefix_of(self.events@),
                forall|i: int| old(self).events@.len() <= i < self.events@.len() ==> (#[trigger] self.events@[i]) is StoredRecord,
                k_old == old(self).known_with(old(store)@),
                grows(k_old, self.known_with(store@)),
                av == args_view(all),
                all == args@,
                rev@.len() + vals@.len() == n,
                n == all.len(),
                forall|i: int| 0 <= i < rev@.len() ==> #[trigger] rev@[i] == all[n - 1 - i],
                forall|i: int| 0 <= i < vals@.len() ==> arg_resolved(#[trigger] av[i], vals@[i]@, self.known_with(store@)),
                forall|q: Seq<u8>| #[trigger] store@.contains_key(q) ==> old(store)@.contains_key(q) || exists|i: int|
                    0 <= i < all.len() && (#[trigger] all[i]) is Await && all[i]->Await_1@ == q,
                forall|c: &Cid| #[trigger] find.requires((c,)),
            decreases rev@.len(),
        {
            let a = rev.pop().unwrap();
            let ghost idx = vals@.len() as int;
            assert(a == all[idx]);
            assert(av[idx] == all[idx]@);
            let ghost k_before = self.known_with(store@);
            let ghost store_before = store@;
            let ghost self_before = *self;
            let v = match a {
                Arg::Value(v) => InstructionResult::Just(v),
                Arg::Await(kind, c) => {
                    let result = match self.resolve(&c, store) {
                        Resolution::Found(x) => x,
                        Resolution::Missing => {
                            proof {
                                assert(!k_before.contains_key(c@));
                                assert(!k_old.contains_key(c@));
                            }
                            let reply = find(&c);
                            let ghost reply_v = reply;
                            let res = self.accept_network(&c, reply, store);
                            match res {
                                Ok(x) => {
                                    proof {
                                        let k_after = self.known_with(store@);
                                        assert forall|q: Seq<u8>| #[trigger] k_before.contains_key(q) implies k_after.contains_key(q)
                                            && k_after[q] == k_before[q] by {
                                            assert(q != c@);
                                            assert(self.linkmap.get(q) == self_before.linkmap.get(q));
                                        }
                                        assert(self.linkmap.get(c@) == Some(x@));
                                        assert(k_after.contains_key(c@) && k_after[c@] == x@);
                                        assert forall|q: Seq<u8>| #[trigger] k_old.contains_key(q) implies k_after.contains_key(q)
                                            && k_after[q] == k_old[q] by {
                                            assert(k_before.contains_key(q));
                                        }
                                        assert forall|i: int| 0 <= i < vals@.len() implies arg_resolved(
                                            #[trigger] av[i],
                                            vals@[i]@,
                                            k_after,
                                        ) by {
                                            assert(arg_resolved(av[i], vals@[i]@, k_before));
                                            if av[i] is Await {
                                                assert(k_before.contains_key(av[i]->Await_1));
                                            }
                                        }
                                        assert(all[idx] == Arg::Await(kind, c));
                                        assert forall|q: Seq<u8>| #[trigger] store@.contains_key(q) implies old(store)@.contains_key(q)
                                            || exists|i: int| 0 <= i < all.len() && (#[trigger] all[i]) is Await && all[i]->Await_1@ == q by {
                                            if !store_before.contains_key(q) {
                                                assert(q == c@);
                                                assert(all[idx] is Await && all[idx]->Await_1@ == q);
                                            }
                                        }
                                        assert(store_kept(old(store)@, store@)) by {
                                            assert forall|q: Seq<u8>| #[trigger] old(store)@.contains_key(q) implies store@.contains_key(q)
                                                && store@[q] == old(store)@[q] by {
                                                assert(store_before.contains_key(q));
                                            }
                                        }
                                        assert forall|i: int| old(self).events@.len() <= i < self.events@.len() implies (#[trigger] self.events@[i]) is StoredRecord by {
                                            if i < self_before.events@.len() {
                                                assert(self.events@[i] == self_before.events@[i]);
                                            }
                                        }
                                        assert(old(self).events@.is_prefix_of(self.events@)) by {
                                            assert forall|i: int| 0 <= i < old(self).events@.len() implies self.events@[i] == old(self).events@[i] by {
                                                assert(self.events@[i] == self_before.events@[i]);
                                            }
                                        }
                                    }
                                    x
                                },
                                Err(e) => {
                                    proof {
                                        assert(e == WorkerError::UnresolvedCid);
                                        assert(all[idx] == Arg::Await(kind, c));
                                        assert(all[idx] is Await && all[idx]->Await_1@ == c@);
                                        assert(!k_old.contains_key(all[idx]->Await_1@));
                                        assert(av[idx] is Await && av[idx]->Await_1 == c@);
                                        assert(!args_local(av, k_old));
                                        assert(call_ensures(find, (&all[idx]->Await_1,), reply_v));
                                    }
                                    return Err(e);
                                },
                            }
                        },
                    };
                    if !kind_accepts(kind, &result) {
                        proof {
                            let k_now = self.known_with(store@);
                            assert(k_now.contains_key(c@) && k_now[c@] == result@);
                            assert(all[idx] == Arg::Await(kind, c));
                            assert(all[idx] is Await && all[idx]->Await_1@ == c@ && all[idx]->Await_0 == kind);
                            assert(av[idx] is Await && av[idx]->Await_1 == c@ && av[idx]->Await_0 == kind);
                            assert(!accepts(kind, k_now[c@]));
                            if args_local(av, k_old) {
                                assert(k_old.contains_key(c@) && accepts(kind, k_old[c@]));
                                assert(k_now[c@] == k_old[c@]);
                            }
                        }
                        return Err(WorkerError::AwaitMismatch);
                    }
                    result
                },
            };
            proof {
                assert(arg_resolved(av[idx], v@, self.known_with(store@)));
            }
            vals.push(v);
        }
        proof {
            assert(results_view(vals@).len() == av.len());
            assert forall|i: int| 0 <= i < av.len() implies arg_resolved(#[trigger] av[i], results_view(vals@)[i], self.known_with(store@)) by {
                assert(arg_resolved(av[i], vals@[i]@, self.known_with(store@)));
            }
        }
        Ok(vals)
    }

    /// What stops the run before it starts, if anything: see [`run_check`].
    fn check_nodes(&self, nodes: &Vec<usize>) -> (r: Option<WorkerError>)
        requires
            forall|i: int| 0 <= i < nodes@.len() ==> (#[trigger] nodes@[i]) < self.tasks@.len(),
        ensures
            r == run_check(self.tasks@, self.resources.entries@, nodes@),
    {
        proof {
            reveal_strlit("wasm/run");
            assert("wasm/run"@ =~= wasm_run_op());
        }
        let mut i: usize = 0;
        while i < nodes.len()
            invariant
                i <= nodes@.len(),
                "wasm/run"@ == wasm_run_op(),
                forall|i: int| 0 <= i < nodes@.len() ==> (#[trigger] nodes@[i]) < self.tasks@.len(),
                forall|j: int| 0 <= j < i ==> op_ok(self.tasks@[#[trigger] nodes@[j] as int]),
            decreases nodes@.len() - i,
        {
            if !(self.tasks[nodes[i]].run.op == text("wasm/run")) {
                return Some(WorkerError::UnknownOp);
            }
            i = i + 1;
        }
        let mut i: usize = 0;
        while i < nodes.len()
            invariant
                i <= nodes@.len(),
                forall|i: int| 0 <= i < nodes@.len() ==> (#[trigger] nodes@[i]) < self.tasks@.len(),
                forall|j: int| 0 <= j < nodes@.len() ==> op_ok(self.tasks@[#[trigger] nodes@[j] as int]),
                forall|j: int| 0 <= j < i ==> input_ok(self.tasks@[#[trigger] nodes@[j] as int]),
            decreases nodes@.len() - i,
        {
            if parse_input(self.tasks[nodes[i]].run.input.copy()).is_err() {
                return Some(WorkerError::InvalidInput);
            }
            i = i + 1;
        }
        let mut i: usize = 0;
        while i < nodes.len()
            invariant
                i <= nodes@.len(),
                forall|i: int| 0 <= i < nodes@.len() ==> (#[trigger] nodes@[i]) < self.tasks@.len(),
                forall|j: int| 0 <= j < nodes@.len() ==> op_ok(self.tasks@[#[trigger] nodes@[j] as int]),
                forall|j: int| 0 <= j < nodes@.len() ==> input_ok(self.tasks@[#[trigger] nodes@[j] as int]),
                forall|j: int| 0 <= j < i ==> module_ok(self.resources.entries@, self.tasks@[#[trigger] nodes@[j] as int]),
            decreases nodes@.len() - i,
        {
            if self.resources.get(&Resource::Url(self.tasks[nodes[i]].run.resource.clone())).is_none() {
                return Some(WorkerError::ResourceUnavailable);
            }
            i = i + 1;
        }
        None
    }

    /// Runs the workflow. The satisfied batches are replayed first. Then
    /// every task to run is checked (see [`run_check`]); a failed check ends
    /// the run before any task runs. Otherwise the tasks of the remaining
    /// batches run one after the other in batch order: each is
    /// evaluated with `eval` on its fetched module, its function and its
    /// resolved arguments, and its output recorded (see
    /// [`Worker::record`]). The run stops at the first task that fails;
    /// what was recorded before stays.
    pub fn run<E, F>(&mut self, store: &mut ReceiptStore, eval: &E, find: &F) -> (r: Result<(), WorkerError>)
        where
            E: Fn(&Vec<u8>, &String, &Vec<InstructionResult<Value>>) -> Option<Value>,
            F: Fn(&Cid) -> Option<Receipt>,
        requires
            old(self).wf(),
            !old(self).started,
            old(store).wf(),
            forall|m: &Vec<u8>, f: &String, a: &Vec<InstructionResult<Value>>| #[trigger] eval.requires((m, f, a)),
            forall|c: &Cid| #[trigger] find.requires((c,)),
        ensures
            final(self).wf(),
            final(store).wf(),
            final(self).same_run(&*old(self)),
            store_kept(old(store)@, final(store)@),
            old(self).info@.progress.is_prefix_of(final(self).info@.progress),
            final(self).started,
            // a failed check runs nothing: the replay alone, and the store untouched
            run_check(old(self).tasks@, old(self).resources.entries@, flat(old(self).plan.run@)) matches Some(e) ==> r
                == Err::<(), WorkerError>(e) && final(store)@ == old(store)@ && final(self).log@.len() == 0
                && final(self).events@.len() == (if old(self).replayed_cids().len() > 0 { 1int } else { 0int }),
            run_check(old(self).tasks@, old(self).resources.entries@, flat(old(self).plan.run@)) is None ==> {
                &&& final(self).started
                &&& r matches Err(e) ==> (e == WorkerError::TaskFailed || e == WorkerError::UnresolvedCid || e
                    == WorkerError::AwaitMismatch) && final(self).log@.len() < flat(old(self).plan.run@).len()
                &&& r is Ok ==> final(self).log@.len() == flat(old(self).plan.run@).len()
                &&& forall|j: int|
                    0 <= j < old(self).replayed_cids().len() && old(store)@.contains_key(old(self).replayed_cids()[j]) ==> (
                    final(self).info@.progress.contains(receipt_cid(old(store)@[#[trigger] old(self).replayed_cids()[j]]))
                        || final(self).info@.progress_count == final(self).info@.num_tasks)
            },
            // nothing to run: the replay alone, and the store untouched
            flat(old(self).plan.run@).len() == 0 ==> r is Ok && final(store)@ == old(store)@ && final(self).log@.len() == 0
                && final(self).events@.len() == (if old(self).replayed_cids().len() > 0 { 1int } else { 0int }),
            // what was handed to the evaluator, and where its output went
            forall|j: int|
                0 <= j < final(self).log@.len() ==> call_ensures(
                    eval,
                    (&(#[trigger] final(self).log@[j]).module, &final(self).log@[j].func, &final(self).log@[j].args),
                    Some(final(self).log@[j].output),
                ),
            forall|j: int|
                0 <= j < final(self).log@.len() ==> final(store)@.contains_key(
                    final(self).instructions@[(#[trigger] final(self).log@[j]).node as int]@,
                ),
            forall|j: int|
                0 <= j < final(self).log@.len() ==> final(self).info@.progress.contains((#[trigger] final(self).log@[j]).receipt@)
                    || final(self).info@.progress_count == final(self).info@.num_tasks,
            // at most one captured receipt per instruction, each new to the store
            forall|i: int|
                0 <= i < final(self).events@.len() && (#[trigger] final(self).events@[i]) is CapturedReceipt ==> !old(
                    store,
                )@.contains_key(final(self).events@[i]->CapturedReceipt_instruction@) && final(store)@.contains_key(
                    final(self).events@[i]->CapturedReceipt_instruction@,
                ),
            forall|i: int, j: int|
                0 <= i < j < final(self).events@.len() && (#[trigger] final(self).events@[i]) is CapturedReceipt && (
                #[trigger] final(self).events@[j]) is CapturedReceipt ==> final(self).events@[i]->CapturedReceipt_instruction@
                    != final(self).events@[j]->CapturedReceipt_instruction@,
            r is Ok ==> all_stored(final(self).plan.run@, final(self).instructions@, final(store)@),
            gained_from(old(store)@, final(store)@, *final(self), flat(old(self).plan.run@)),
            r == Err::<(), WorkerError>(WorkerError::TaskFailed) ==> final(self).log@.len() < flat(old(self).plan.run@).len()
                && exists|m: Vec<u8>, f: String, a: Vec<InstructionResult<Value>>, k: Map<Seq<u8>, InstructionResult<Val>>|
                final(self).inputs_ok(flat(old(self).plan.run@)[final(self).log@.len() as int] as int, m@, f@, results_view(a@), k)
                    && call_ensures(eval, (&m, &f, &a), None::<Value>),
    {
        let nodes = flatten(&self.plan.run);
        proof {
            lemma_flat_in(self.plan.run@, self.tasks@.len());
        }
        self.start(store);
        if let Some(e) = self.check_nodes(&nodes) {
            return Err(e);
        }
        let mut i: usize = 0;
        while i < nodes.len()
            invariant
                self.wf(),
                self.started,
                store.wf(),
                self.same_run(&*old(self)),
                nodes@ == flat(self.plan.run@),
                forall|j: int| 0 <= j < nodes@.len() ==> (#[trigger] nodes@[j]) < self.tasks@.len(),
                run_check(self.tasks@, self.resources.entries@, nodes@) is None,
                i <= nodes@.len(),
                self.log@.len() == i,
                store_kept(old(store)@, store@),
                gained_from(old(store)@, store@, *self, nodes@),
                old(self).info@.progress.is_prefix_of(self.info@.progress),
                forall|j: int|
                    0 <= j < old(self).replayed_cids().len() && old(store)@.contains_key(old(self).replayed_cids()[j]) ==> (
                    self.info@.progress.contains(receipt_cid(old(store)@[#[trigger] old(self).replayed_cids()[j]]))
                        || self.info@.progress_count == self.info@.num_tasks),
                nodes@.len() == 0 ==> store@ == old(store)@ && self.events@.len() == (if old(self).replayed_cids().len() > 0 { 1int } else { 0int }),
                forall|j: int|
                    0 <= j < self.log@.len() ==> call_ensures(
                        eval,
                        (&(#[trigger] self.log@[j]).module, &self.log@[j].func, &self.log@[j].args),
                        Some(self.log@[j].output),
                    ),
                forall|j: int|
                    0 <= j < self.log@.len() ==> store@.contains_key(self.instructions@[(#[trigger] self.log@[j]).node as int]@),
                forall|j: int|
                    0 <= j < self.log@.len() ==> self.info@.progress.contains((#[trigger] self.log@[j]).receipt@)
                        || self.info@.progress_count == self.info@.num_tasks,
                forall|e: int|
                    0 <= e < self.events@.len() && (#[trigger] self.events@[e]) is CapturedReceipt ==> !old(store)@.contains_key(
                        self.events@[e]->CapturedReceipt_instruction@,
                    ) && store@.contains_key(self.events@[e]->CapturedReceipt_instruction@),
                forall|a: int, b: int|
                    0 <= a < b < self.events@.len() && (#[trigger] self.events@[a]) is CapturedReceipt && (
                    #[trigger] self.events@[b]) is CapturedReceipt ==> self.events@[a]->CapturedReceipt_instruction@
                        != self.events@[b]->CapturedReceipt_instruction@,
                forall|m: &Vec<u8>, f: &String, a: &Vec<InstructionResult<Value>>| #[trigger] eval.requires((m, f, a)),
                forall|c: &Cid| #[trigger] find.requires((c,)),
            decreases nodes@.len() - i,
        {
            let node = nodes[i];
            proof {
                assert(op_ok(self.tasks@[node as int]));
                assert(input_ok(self.tasks@[node as int]));
                assert(module_ok(self.resources.entries@, self.tasks@[node as int]));
            }
            let parsed = match parse_input(self.tasks[node].run.input.copy()) {
                Ok(p) => p,
                Err(_) => {
                    proof {
                        assert(false);
                    }
                    return Err(WorkerError::InvalidInput);
                },
            };
            let module = match self.resources.get(&Resource::Url(self.tasks[node].run.resource.clone())) {
                Some(m) => m,
                None => {
                    proof {
                        assert(false);
                    }
                    return Err(WorkerError::ResourceUnavailable);
                },
            };
            let func = parsed.func;
            let ghost am = args_view(parsed.args@);
            let ghost args0 = parsed.args@;
            let ghost s0 = store@;
            let ghost w0 = *self;
            let vals = match self.resolve_args(parsed.args, store, find) {
                Ok(v) => v,
                Err(e) => {
                    proof {
                        assert forall|e2: int| 0 <= e2 < self.events@.len() && (#[trigger] self.events@[e2]) is CapturedReceipt implies !old(store)@.contains_key(
                            self.events@[e2]->CapturedReceipt_instruction@,
                        ) && store@.contains_key(self.events@[e2]->CapturedReceipt_instruction@) by {
                            assert(e2 < w0.events@.len());
                            assert(self.events@[e2] == w0.events@[e2]);
                            assert(s0.contains_key(self.events@[e2]->CapturedReceipt_instruction@));
                        }
                        assert forall|a: int, b: int|
                            0 <= a < b < self.events@.len() && (#[trigger] self.events@[a]) is CapturedReceipt && (
                            #[trigger] self.events@[b]) is CapturedReceipt implies self.events@[a]->CapturedReceipt_instruction@
                                != self.events@[b]->CapturedReceipt_instruction@ by {
                            assert(b < w0.events@.len());
                            assert(self.events@[a] == w0.events@[a]);
                            assert(self.events@[b] == w0.events@[b]);
                        }
                        lemma_gained_step(old(store)@, s0, store@, w0, *self, nodes@, i as int, args0, am);
                    }
                    return Err(e);
                },
            };
            let ghost known = self.known_with(store@);
            let ghost s1 = store@;
            let ghost w1 = *self;
            proof {
                assert(store_kept(old(store)@, s1)) by {
                    assert forall|q: Seq<u8>| #[trigger] old(store)@.contains_key(q) implies s1.contains_key(q) && s1[q] == old(store)@[q] by {
                        assert(s0.contains_key(q));
                    }
                }
                assert forall|e2: int| 0 <= e2 < w1.events@.len() && (#[trigger] w1.events@[e2]) is CapturedReceipt implies !old(store)@.contains_key(
                    w1.events@[e2]->CapturedReceipt_instruction@,
                ) && s1.contains_key(w1.events@[e2]->CapturedReceipt_instruction@) by {
                    assert(e2 < w0.events@.len());
                    assert(w1.events@[e2] == w0.events@[e2]);
                    assert(s0.contains_key(w1.events@[e2]->CapturedReceipt_instruction@));
                }
                assert forall|a: int, b: int|
                    0 <= a < b < w1.events@.len() && (#[trigger] w1.events@[a]) is CapturedReceipt && (
                    #[trigger] w1.events@[b]) is CapturedReceipt implies w1.events@[a]->CapturedReceipt_instruction@
                        != w1.events@[b]->CapturedReceipt_instruction@ by {
                    assert(w1.events@[a] == w0.events@[a]);
                    assert(w1.events@[b] == w0.events@[b]);
                }
                assert(parse_input_spec(self.tasks@[node as int].run.input@) == Some((func@, am)));
                assert(self.inputs_ok(node as int, module@, func@, results_view(vals@), known));
                lemma_gained_step(old(store)@, s0, s1, w0, w1, nodes@, i as int, args0, am);
            }
            let output = match eval(&module, &func, &vals) {
                Some(o) => o,
                None => {
                    proof {
                        assert(nodes@[i as int] == node);
                        assert(self.inputs_ok(nodes@[self.log@.len() as int] as int, module@, func@, results_view(vals@), known));
                    }
                    return Err(WorkerError::TaskFailed);
                },
            };
            let ghost evald = call_ensures(eval, (&module, &func, &vals), Some(output));
            assert(evald);
            let committed = self.record(node, module, func, vals, output, Ghost(known), store);
            proof {
                let s2 = store@;
                let w2 = *self;
                assert forall|q: Seq<u8>| #[trigger] s2.contains_key(q) implies old(store)@.contains_key(q) || logged_instr(w2, q)
                    || run_awaits(w2.tasks@, nodes@, q) by {
                    if s1.contains_key(q) {
                        if logged_instr(w1, q) {
                            let j = choose|j: int| 0 <= j < w1.log@.len() && w1.instructions@[(#[trigger] w1.log@[j]).node as int]@ == q;
                            assert(w2.log@[j] == w1.log@[j]);
                        }
                    } else {
                        let j = w1.log@.len() as int;
                        assert(w2.log@[j].node == node);
                    }
                }
                assert(store_kept(old(store)@, s2)) by {
                    assert forall|q: Seq<u8>| #[trigger] old(store)@.contains_key(q) implies s2.contains_key(q) && s2[q] == old(store)@[q] by {
                        assert(s1.contains_key(q));
                    }
                }
                assert forall|j: int| 0 <= j < w2.log@.len() implies call_ensures(
                    eval,
                    (&(#[trigger] w2.log@[j]).module, &w2.log@[j].func, &w2.log@[j].args),
                    Some(w2.log@[j].output),
                ) by {
                    if j < w1.log@.len() {
                        assert(w2.log@[j] == w1.log@[j]);
                    }
                }
                assert forall|j: int| 0 <= j < w2.log@.len() implies s2.contains_key(
                    w2.instructions@[(#[trigger] w2.log@[j]).node as int]@,
                ) by {
                    if j < w1.log@.len() {
                        assert(w2.log@[j] == w1.log@[j]);
                        assert(s1.contains_key(w1.instructions@[w1.log@[j].node as int]@));
                    }
                }
                assert forall|j: int| 0 <= j < w2.log@.len() implies w2.info@.progress.contains((#[trigger] w2.log@[j]).receipt@)
                    || w2.info@.progress_count == w2.info@.num_tasks by {
                    if j < w1.log@.len() {
                        assert(w2.log@[j] == w1.log@[j]);
                        if w1.info@.progress.contains(w1.log@[j].receipt@) {
                            let x = choose|x: int| 0 <= x < w1.info@.progress.len() && w1.info@.progress[x] == w1.log@[j].receipt@;
                            assert(w1.info@.progress.is_prefix_of(w2.info@.progress));
                            assert(w2.info@.progress[x] == w1.info@.progress[x]);
                        } else {
                            assert(w1.info@.progress.is_prefix_of(w2.info@.progress));
                        }
                    } else {
                        assert(w2.log@[j].receipt == w2.log@.last().receipt);
                        assert(w2.record_ok(w2.log@[j]));
                    }
                }
                assert forall|e2: int| 0 <= e2 < w2.events@.len() && (#[trigger] w2.events@[e2]) is CapturedReceipt implies !old(store)@.contains_key(
                    w2.events@[e2]->CapturedReceipt_instruction@,
                ) && s2.contains_key(w2.events@[e2]->CapturedReceipt_instruction@) by {
                    if e2 < w1.events@.len() {
                        assert(w2.events@[e2] == w1.events@[e2]);
                        assert(s1.contains_key(w1.events@[e2]->CapturedReceipt_instruction@));
                    } else {
                        let q = w2.events@[e2]->CapturedReceipt_instruction@;
                        assert(!s1.contains_key(q));
                        if old(store)@.contains_key(q) {
                            assert(s1.contains_key(q));
                        }
                    }
                }
                assert forall|a: int, b: int|
                    0 <= a < b < w2.events@.len() && (#[trigger] w2.events@[a]) is CapturedReceipt && (
                    #[trigger] w2.events@[b]) is CapturedReceipt implies w2.events@[a]->CapturedReceipt_instruction@
                        != w2.events@[b]->CapturedReceipt_instruction@ by {
                    if b < w1.events@.len() {
                        assert(w2.events@[a] == w1.events@[a]);
                        assert(w2.events@[b] == w1.events@[b]);
                    } else {
                        assert(w2.events@[a] == w1.events@[a]);
                        assert(s1.contains_key(w1.events@[a]->CapturedReceipt_instruction@));
                        assert(!s1.contains_key(w2.events@[b]->CapturedReceipt_instruction@));
                    }
                }
                assert(w1.info@.progress.is_prefix_of(w2.info@.progress));
                assert forall|j: int|
                    0 <= j < old(self).replayed_cids().len() && old(store)@.contains_key(old(self).replayed_cids()[j]) implies (
                    w2.info@.progress.contains(receipt_cid(old(store)@[#[trigger] old(self).replayed_cids()[j]]))
                        || w2.info@.progress_count == w2.info@.num_tasks) by {
                    let x = receipt_cid(old(store)@[old(self).replayed_cids()[j]]);
                    if w1.info@.progress.contains(x) {
                        let k = choose|k: int| 0 <= k < w1.info@.progress.len() && w1.info@.progress[k] == x;
                        assert(w2.info@.progress[k] == w1.info@.progress[k]);
                    }
                }
                assert(old(self).info@.progress.is_prefix_of(w2.info@.progress)) by {
                    assert forall|x: int| 0 <= x < old(self).info@.progress.len() implies w2.info@.progress[x] == old(self).info@.progress[x] by {
                        assert(w1.info@.progress[x] == old(self).info@.progress[x]);
                    }
                }
            }
            i = i + 1;
        }
        proof {
            assert forall|b: int, k: int|
                0 <= b < self.plan.run@.len() && 0 <= k < self.plan.run@[b]@.len() implies store@.contains_key(
                self.instructions@[#[trigger] self.plan.run@[b]@[k] as int]@,
            ) by {
                lemma_flat_index(self.plan.run@, b, k);
                let j = choose|j: int| 0 <= j < flat(self.plan.run@).len() && flat(self.plan.run@)[j] == self.plan.run@[b]@[k];
                assert(self.log@[j].node == flat(self.plan.run@)[j]);
                assert(store@.contains_key(self.instructions@[self.log@[j].node as int]@));
            }
        }
        Ok(())
    }
}

proof fn lemma_gained_step(
    s_old: Map<Seq<u8>, ReceiptModel>,
    s0: Map<Seq<u8>, ReceiptModel>,
    s1: Map<Seq<u8>, ReceiptModel>,
    w0: Worker,
    w1: Worker,
    nodes: Seq<usize>,
    x: int,
    args: Seq<Arg>,
    am: Seq<ArgModel>,
)
    requires
        gained_from(s_old, s0, w0, nodes),
        w1.log == w0.log,
        w1.instructions == w0.instructions,
        w1.tasks == w0.tasks,
        0 <= x < nodes.len(),
        nodes[x] < w0.tasks@.len(),
        am == args_view(args),
        parse_input_spec(w0.tasks@[nodes[x] as int].run.input@) matches Some((_, a)) && a == am,
        forall|q: Seq<u8>| #[trigger] s1.contains_key(q) ==> s0.contains_key(q) || exists|i: int|
            0 <= i < args.len() && (#[trigger] args[i]) is Await && args[i]->Await_1@ == q,
    ensures
        gained_from(s_old, s1, w1, nodes),
{
    assert forall|q: Seq<u8>| #[trigger] s1.contains_key(q) implies s_old.contains_key(q) || logged_instr(w1, q)
        || run_awaits(w1.tasks@, nodes, q) by {
        if s0.contains_key(q) {
            if logged_instr(w0, q) {
                let j = choose|j: int| 0 <= j < w0.log@.len() && w0.instructions@[(#[trigger] w0.log@[j]).node as int]@ == q;
                assert(w1.log@[j] == w0.log@[j]);
            }
            if run_awaits(w0.tasks@, nodes, q) {
                let y = choose|y: int| 0 <= y < nodes.len() && awaits_in(w0.tasks@[(#[trigger] nodes[y]) as int], q);
                assert(awaits_in(w1.tasks@[nodes[y] as int], q));
            }
        } else {
            let i = choose|i: int| 0 <= i < args.len() && (#[trigger] args[i]) is Await && args[i]->Await_1@ == q;
            assert(am[i] == args[i]@);
            assert(am[i] is Await && am[i]->Await_1 == q);
            assert(awaits_in(w1.tasks@[nodes[x] as int], q));
        }
    }
}

/// Each task of each batch stands somewhere in the flattened batches.
proof fn lemma_flat_index(batches: Seq<Vec<usize>>, b: int, k: int)
    requires
        0 <= b < batches.len(),
        0 <= k < batches[b]@.len(),
    ensures
        exists|j: int| 0 <= j < flat(batches).len() && flat(batches)[j] == batches[b]@[k],
    decreases batches.len(),
{
    let d = batches.drop_last();
    if b == batches.len() - 1 {
        let j = flat(d).len() + k;
        assert(flat(batches)[j] == batches.last()@[k]);
    } else {
        assert(batches[b] == d[b]);
        lemma_flat_index(d, b, k);
        let j = choose|j: int| 0 <= j < flat(d).len() && flat(d)[j] == d[b]@[k];
        assert(flat(batches)[j] == flat(d)[j]);
    }
}

} // verus!

verus! {

/// Why a workflow run cannot be set up.
#[derive(Debug, Clone, Copy, PartialEq, Eq)]
pub enum InitError {
    /// More tasks than progress can count.
    TooManyTasks,
    /// A task's input does not read as a function and arguments.
    GraphBuildError,
    /// Some tasks await one another in a cycle.
    CyclicWorkflow,
    /// A module that a task to run needs could not be fetched.
    ResourceUnavailable,
}

/// The identifiers a task awaits, when its input reads.
pub open spec fn task_awaits(t: Task) -> Seq<Seq<u8>> {
    awaited(parse_input_spec(t.run.input@)->Some_0.1)
}

/// `c` holds the identifier of each task's instruction.
pub open spec fn instructions_of(c: Seq<Cid>, tasks: Seq<Task>) -> bool {
    c.len() == tasks.len() && forall|j: int| 0 <= j < tasks.len() ==> (#[trigger] c[j])@ == crate::workflow::instruction_cid(tasks[j].run@)
}

/// For each task, the identifiers it awaits.
pub open spec fn tasks_awaits(tasks: Seq<Task>) -> Seq<Seq<Seq<u8>>> {
    Seq::new(tasks.len(), |j: int| task_awaits(tasks[j]))
}

proof fn lemma_first_bytes_found(s: Seq<(Resource, Vec<u8>)>, r: ResourceModel, i: int)
    requires
        0 <= i < s.len(),
        s[i].0@ == r,
    ensures
        first_bytes(s, r) is Some,
    decreases s.len(),
{
    if s[0].0@ != r {
        let t = s.subrange(1, s.len() as int);
        assert(t[i - 1] == s[i]);
        lemma_first_bytes_found(t, r, i - 1);
    }
}

/// The fetched modules are exactly those the tasks of `run` need, each
/// once.
pub open spec fn fetched_exactly(entries: Seq<(Resource, Vec<u8>)>, tasks: Seq<Task>, run: Seq<Vec<usize>>) -> bool {
    &&& forall|i: int| 0 <= i < entries.len() ==> (#[trigger] entries[i]).0 is Url && url_used(tasks, run, entries[i].0->Url_0@)
    &&& forall|i: int, j: int| 0 <= i < j < entries.len() ==> entries[i].0@ != entries[j].0@
    &&& forall|b: int, k: int|
        0 <= b < run.len() && 0 <= k < run[b]@.len() ==> url_fetched(entries, #[trigger] url_of(tasks, run, b, k))
}

/// Module location `u` was fetched.
pub open spec fn url_fetched(entries: Seq<(Resource, Vec<u8>)>, u: Seq<char>) -> bool {
    exists|i: int| 0 <= i < entries.len() && entries[i].0@ == ResourceModel::Url(u)
}

/// Every task's input reads.
pub open spec fn inputs_read(tasks: Seq<Task>) -> bool {
    forall|j: int| 0 <= j < tasks.len() ==> parse_input_spec((#[trigger] tasks[j]).run.input@) is Some
}

/// The tasks await one another in no cycle.
pub open spec fn acyclic(tasks: Seq<Task>) -> bool {
    forall|c: Seq<Cid>, d: Seq<Vec<usize>>, w: Set<int>|
        #[trigger] instructions_of(c, tasks) && #[trigger] deps_of(c, tasks_awaits(tasks), d) ==> !#[trigger] cycle_witness(d, w)
}

impl Worker {
    /// A run of `tasks` under `plan`, with the workflow's information taken
    /// from `infos` or started there (see [`init_info`]).
    fn assemble(tasks: Vec<Task>, name: String, plan: TaskPlan, resources: ResourceCache, infos: &mut WorkflowStore) -> (w: Worker)
        requires
            old(infos).wf(),
            tasks@.len() <= u32::MAX,
            batches_in(plan.ran@, tasks@.len()),
            batches_in(plan.run@, tasks@.len()),
        ensures
            final(infos).wf(),
            ({
                let cid = cid_of_encoding(canonical_encoding(workflow_val(tasks@)));
                &&& w.wf()
                &&& !w.started
                &&& w.events@.len() == 0
                &&& w.log@.len() == 0
                &&& w.tasks@ == tasks@
                &&& w.name == name
                &&& w.plan == plan
                &&& w.resources == resources
                &&& w.info@.cid == cid
                &&& w.info@.num_tasks == tasks@.len()
                &&& w.info@.resources == indexed_resources_spec(tasks@)
                &&& old(infos)@.contains_key(cid) && old(infos)@[cid].num_tasks == tasks@.len() ==> w.info@.progress
                    == old(infos)@[cid].progress && final(infos)@ == old(infos)@
                &&& !(old(infos)@.contains_key(cid) && old(infos)@[cid].num_tasks == tasks@.len()) ==> w.info@.progress.len()
                    == 0 && w.info@.name == Some(name@) && final(infos)@ == old(infos)@.insert(cid, w.info@)
                &&& forall|j: int| 0 <= j < tasks@.len() ==> (#[trigger] w.instructions@[j])@ == crate::workflow::instruction_cid(tasks@[j].run@)
            }),
    {
        let cid = workflow_cid(&tasks);
        let n = tasks.len() as u32;
        assert(n as nat == tasks@.len());
        let given = name.clone();
        assert(given == name);
        let info = init_info(infos, cid, n, Some(given), indexed_resources(&tasks));
        Worker::new(tasks, info, name, plan, resources)
    }

    /// Sets up the run of `tasks`: plans them against `store`, fetches with
    /// `fetch` each module that a task to run needs, once, and takes the
    /// workflow's information from `infos`, or starts it there (see
    /// [`init_info`]). The workflow is identified by its tasks'
    /// invocations, its information indexes each instruction's module, and
    /// the run is named `name`. It succeeds exactly when the tasks fit, every
    /// input reads, the tasks await one another in no cycle
    /// and every module fetched is answered.
    pub fn init<Fetch>(
        tasks: Vec<Task>,
        name: String,
        store: &ReceiptStore,
        infos: &mut WorkflowStore,
        fetch: &Fetch,
    ) -> (r: Result<Worker, InitError>)
        where
            Fetch: Fn(&String) -> Option<Vec<u8>>,
        requires
            store.wf(),
            old(infos).wf(),
            forall|u: &String| #[trigger] fetch.requires((u,)),
        ensures
            final(infos).wf(),
            (r == Err::<Worker, InitError>(InitError::TooManyTasks)) == (tasks@.len() > u32::MAX),
            (r == Err::<Worker, InitError>(InitError::GraphBuildError)) == (tasks@.len() <= u32::MAX && !inputs_read(tasks@)),
            r == Err::<Worker, InitError>(InitError::CyclicWorkflow) ==> tasks@.len() <= u32::MAX && inputs_read(tasks@)
                && exists|c: Seq<Cid>, d: Seq<Vec<usize>>, w: Set<int>|
                instructions_of(c, tasks@) && deps_of(c, tasks_awaits(tasks@), d) && cycle_witness(d, w),
            r == Err::<Worker, InitError>(InitError::ResourceUnavailable) ==> tasks@.len() <= u32::MAX && inputs_read(tasks@)
                && acyclic(tasks@) && exists|u: String|
                call_ensures(fetch, (&u,), None::<Vec<u8>>) && exists|j: int|
                    0 <= j < tasks@.len() && (#[trigger] tasks@[j]).run.resource@ == u@,
            tasks@.len() <= u32::MAX && inputs_read(tasks@) && acyclic(tasks@) && (forall|u: String|
                (exists|j: int| 0 <= j < tasks@.len() && (#[trigger] tasks@[j]).run.resource@ == u@) ==> !#[trigger] call_ensures(
                    fetch,
                    (&u,),
                    None::<Vec<u8>>,
                )) ==> r is Ok,
            r is Err ==> final(infos)@ == old(infos)@,
            r matches Ok(w) ==> {
                let cid = cid_of_encoding(canonical_encoding(workflow_val(tasks@)));
                &&& w.wf()
                &&& !w.started
                &&& w.events@.len() == 0
                &&& w.log@.len() == 0
                &&& w.tasks@ == tasks@
                &&& inputs_read(tasks@)
                &&& w.name == name
                &&& w.info@.cid == cid
                &&& w.info@.num_tasks == tasks@.len()
                &&& w.info@.resources == indexed_resources_spec(tasks@)
                &&& old(infos)@.contains_key(cid) && old(infos)@[cid].num_tasks == tasks@.len() ==> w.info@.progress
                    == old(infos)@[cid].progress && final(infos)@ == old(infos)@
                &&& !(old(infos)@.contains_key(cid) && old(infos)@[cid].num_tasks == tasks@.len()) ==> w.info@.progress.len()
                    == 0 && w.info@.name == Some(name@) && final(infos)@ == old(infos)@.insert(cid, w.info@)
                &&& forall|j: int| 0 <= j < tasks@.len() ==> (#[trigger] w.instructions@[j])@ == crate::workflow::instruction_cid(tasks@[j].run@)
                &&& exists|d: Seq<Vec<usize>>, l: Seq<usize>|
                    deps_of(w.instructions@, tasks_awaits(tasks@), d) && layered(d, l) && batched(l, w.plan.ran@ + w.plan.run@)
                &&& split_at_first_unsatisfied(w.plan.ran@ + w.plan.run@, satisfied_in(w.instructions@, *store), w.plan)
                &&& fetched_exactly(w.resources.entries@, tasks@, w.plan.run@)
                &&& forall|i: int|
                    0 <= i < w.resources.entries@.len() ==> call_ensures(
                        fetch,
                        (&(#[trigger] w.resources.entries@[i]).0->Url_0,),
                        Some(w.resources.entries@[i].1),
                    )
            },
    {
        if tasks.len() > u32::MAX as usize {
            return Err(InitError::TooManyTasks);
        }
        let (instructions, awaits) = match read_tasks(&tasks) {
            Some(x) => x,
            None => {
                return Err(InitError::GraphBuildError);
            },
        };
        let sched = match schedule(&instructions, &awaits, store) {
            Ok(s) => s,
            Err(_) => {
                return Err(InitError::CyclicWorkflow);
            },
        };
        proof {
            crate::scheduler::lemma_layered_dense(sched.deps@, sched.level@);
            lemma_batched_in(sched.level@, sched.plan.ran@, sched.plan.run@);
            if !acyclic(tasks@) {
                let (c, d, w) = choose|c: Seq<Cid>, d: Seq<Vec<usize>>, w: Set<int>|
                    instructions_of(c, tasks@) && deps_of(c, tasks_awaits(tasks@), d) && cycle_witness(d, w);
                lemma_instructions_same(c, instructions@, tasks@);
                lemma_deps_of_views(c, instructions@, tasks_awaits(tasks@), d);
                lemma_deps_of_unique(instructions@, tasks_awaits(tasks@), d, sched.deps@);
                crate::scheduler::lemma_cycle_blocks_layering(sched.deps@, w, sched.level@);
            }
        }
        let resources = match fetch_modules(&tasks, &sched.plan.run, fetch) {
            Some(rc) => rc,
            None => {
                return Err(InitError::ResourceUnavailable);
            },
        };
        let ghost tv = tasks@;
        let w = Worker::assemble(tasks, name, sched.plan, resources, infos);
        proof {
            lemma_deps_of_views(instructions@, w.instructions@, tasks_awaits(tv), sched.deps@);
            assert(satisfied_in(w.instructions@, *store) =~= satisfied_in(instructions@, *store));
        }
        Ok(w)
    }
}

proof fn lemma_instructions_same(c1: Seq<Cid>, c2: Seq<Cid>, tasks: Seq<Task>)
    requires
        instructions_of(c1, tasks),
        instructions_of(c2, tasks),
    ensures
        c1.len() == c2.len(),
        forall|i: int| 0 <= i < c1.len() ==> (#[trigger] c1[i])@ == c2[i]@,
{
    assert forall|i: int| 0 <= i < c1.len() implies (#[trigger] c1[i])@ == c2[i]@ by {
        assert(c1[i]@ == crate::workflow::instruction_cid(tasks[i].run@));
        assert(c2[i]@ == crate::workflow::instruction_cid(tasks[i].run@));
    }
}

/// Two graphs of the same dependencies are the same up to the order of
/// each task's list, so a cycle witness of one is one of the other.
proof fn lemma_deps_of_unique(c: Seq<Cid>, a: Seq<Seq<Seq<u8>>>, d1: Seq<Vec<usize>>, d2: Seq<Vec<usize>>)
    requires
        deps_of(c, a, d1),
        deps_of(c, a, d2),
    ensures
        forall|w: Set<int>| #[trigger] cycle_witness(d1, w) ==> cycle_witness(d2, w),
{
    assert forall|w: Set<int>| #[trigger] cycle_witness(d1, w) implies cycle_witness(d2, w) by {
        assert forall|j: int| #[trigger] w.contains(j) implies exists|k: int|
            0 <= k < d2[j]@.len() && w.contains(d2[j]@[k] as int) by {
            let k = choose|k: int| 0 <= k < d1[j]@.len() && w.contains(d1[j]@[k] as int);
            let i = d1[j]@[k];
            assert(d1[j]@.contains(i));
            assert(i < d1.len());
            assert(d1[j]@.contains((i as int) as usize));
            assert(a[j].contains(c[i as int]@));
            assert(d2[j]@.contains((i as int) as usize));
            let k2 = choose|k2: int| 0 <= k2 < d2[j]@.len() && d2[j]@[k2] == i;
        }
    }
}

/// For each task, its instruction's identifier and the identifiers it
/// awaits, when every task's input reads.
fn read_tasks(tasks: &Vec<Task>) -> (r: Option<(Vec<Cid>, Vec<Vec<Cid>>)>)
    ensures
        r is None <==> !inputs_read(tasks@),
        r matches Some((c, a)) ==> {
            &&& instructions_of(c@, tasks@)
            &&& a@.len() == c@.len()
            &&& awaits_view(a@) == tasks_awaits(tasks@)
            &&& inputs_read(tasks@)
        },
{
    let mut instructions: Vec<Cid> = Vec::new();
    let mut awaits: Vec<Vec<Cid>> = Vec::new();
    let mut j: usize = 0;
    while j < tasks.len()
        invariant
            j <= tasks@.len(),
            instructions@.len() == j,
            awaits@.len() == j,
            forall|m: int| 0 <= m < j ==> (#[trigger] instructions@[m])@ == crate::workflow::instruction_cid(tasks@[m].run@),
            forall|m: int| 0 <= m < j ==> parse_input_spec((#[trigger] tasks@[m]).run.input@) is Some,
            forall|m: int| 0 <= m < j ==> crate::receipt::cids_view(#[trigger] awaits@[m]@) == task_awaits(tasks@[m]),
        decreases tasks@.len() - j,
    {
        let parsed = match parse_input(tasks[j].run.input.copy()) {
            Ok(p) => p,
            Err(_) => {
                return None;
            },
        };
        instructions.push(tasks[j].run.cid());
        awaits.push(parsed.awaits());
        j = j + 1;
    }
    assert(awaits_view(awaits@) =~= tasks_awaits(tasks@));
    Some((instructions, awaits))
}

/// Fetches with `fetch` each module that the tasks of `run` need, once.
fn fetch_modules<Fetch>(tasks: &Vec<Task>, run: &Vec<Vec<usize>>, fetch: &Fetch) -> (r: Option<ResourceCache>)
    where
        Fetch: Fn(&String) -> Option<Vec<u8>>,
    requires
        batches_in(run@, tasks@.len()),
        forall|u: &String| #[trigger] fetch.requires((u,)),
    ensures
        r is None ==> exists|u: String|
            call_ensures(fetch, (&u,), None::<Vec<u8>>) && exists|j: int|
                0 <= j < tasks@.len() && (#[trigger] tasks@[j]).run.resource@ == u@,
        r matches Some(rc) ==> {
            &&& forall|i: int|
                0 <= i < rc.entries@.len() ==> (#[trigger] rc.entries@[i]).0 is Url && call_ensures(
                    fetch,
                    (&rc.entries@[i].0->Url_0,),
                    Some(rc.entries@[i].1),
                )
            &&& fetched_exactly(rc.entries@, tasks@, run@)
            &&& forall|x: int|
                0 <= x < flat(run@).len() ==> module_ok(rc.entries@, tasks@[#[trigger] flat(run@)[x] as int])
        },
{
    let urls = urls_to_fetch(tasks, run);
    let mut entries: Vec<(Resource, Vec<u8>)> = Vec::new();
    let mut i: usize = 0;
    while i < urls.len()
        invariant
            i <= urls@.len(),
            entries@.len() == i,
            batches_in(run@, tasks@.len()),
            forall|m: int| 0 <= m < urls@.len() ==> url_used(tasks@, run@, (#[trigger] urls@[m])@),
            forall|a: int, b: int| 0 <= a < b < urls@.len() ==> urls@[a]@ != urls@[b]@,
            forall|b: int, k: int|
                0 <= b < run@.len() && 0 <= k < run@[b]@.len() ==> url_listed(urls@, #[trigger] url_of(tasks@, run@, b, k)),
            forall|m: int|
                0 <= m < i ==> (#[trigger] entries@[m]).0 is Url && entries@[m].0->Url_0 == urls@[m] && call_ensures(
                    fetch,
                    (&entries@[m].0->Url_0,),
                    Some(entries@[m].1),
                ),
            forall|u: &String| #[trigger] fetch.requires((u,)),
        decreases urls@.len() - i,
    {
        let u = urls[i].clone();
        match fetch(&u) {
            Some(bytes) => {
                entries.push((Resource::Url(u), bytes));
            },
            None => {
                proof {
                    assert(url_used(tasks@, run@, urls@[i as int]@));
                    let (b, k) = choose|b: int, k: int|
                        0 <= b < run@.len() && 0 <= k < run@[b]@.len()
                            && tasks@[run@[b]@[k] as int].run.resource@ == urls@[i as int]@;
                    assert(run@[b]@[k] < tasks@.len());
                    assert(tasks@[run@[b]@[k] as int].run.resource@ == u@);
                }
                return None;
            },
        }
        i = i + 1;
    }
    let resources = ResourceCache { entries };
    proof {
        assert forall|i: int, j: int| 0 <= i < j < resources.entries@.len() implies resources.entries@[i].0@
            != resources.entries@[j].0@ by {
            assert(urls@[i]@ != urls@[j]@);
        }
        assert forall|b: int, k: int|
            0 <= b < run@.len() && 0 <= k < run@[b]@.len() implies url_fetched(resources.entries@, #[trigger] url_of(tasks@, run@, b, k)) by {
            assert(url_listed(urls@, url_of(tasks@, run@, b, k)));
            let m = choose|m: int| 0 <= m < urls@.len() && urls@[m]@ == url_of(tasks@, run@, b, k);
            assert(resources.entries@[m].0@ == ResourceModel::Url(url_of(tasks@, run@, b, k)));
        }
        assert(fetched_exactly(resources.entries@, tasks@, run@));
        assert forall|x: int| 0 <= x < flat(run@).len() implies module_ok(
            resources.entries@,
            tasks@[#[trigger] flat(run@)[x] as int],
        ) by {
            lemma_flat_member(run@, x);
            let (b, k) = choose|b: int, k: int|
                0 <= b < run@.len() && 0 <= k < run@[b]@.len() && run@[b]@[k] == flat(run@)[x];
            assert(url_listed(urls@, url_of(tasks@, run@, b, k)));
            let m = choose|m: int| 0 <= m < urls@.len() && urls@[m]@ == url_of(tasks@, run@, b, k);
            assert(resources.entries@[m].0@ == ResourceModel::Url(tasks@[flat(run@)[x] as int].run.resource@));
            lemma_first_bytes_found(resources.entries@, ResourceModel::Url(tasks@[flat(run@)[x] as int].run.resource@), m);
        }
    }
    Some(resources)
}

proof fn lemma_deps_of_views(c1: Seq<Cid>, c2: Seq<Cid>, a: Seq<Seq<Seq<u8>>>, d: Seq<Vec<usize>>)
    requires
        deps_of(c1, a, d),
        c1.len() == c2.len(),
        forall|i: int| 0 <= i < c1.len() ==> (#[trigger] c1[i])@ == c2[i]@,
    ensures
        deps_of(c2, a, d),
{
    assert forall|j: int, i: int| 0 <= j < d.len() && 0 <= i < d.len() implies (#[trigger] d[j]@.contains(i as usize)
        <==> a[j].contains(#[trigger] c2[i]@)) by {
        assert(c1[i]@ == c2[i]@);
    }
}

proof fn lemma_batched_in(level: Seq<usize>, ran: Seq<Vec<usize>>, run: Seq<Vec<usize>>)
    requires
        batched(level, ran + run),
    ensures
        batches_in(ran, level.len()),
        batches_in(run, level.len()),
{
    let all = ran + run;
    assert forall|b: int, k: int| 0 <= b < ran.len() && 0 <= k < ran[b]@.len() implies (#[trigger] ran[b]@[k]) < level.len() by {
        assert(all[b] == ran[b]);
    }
    assert forall|b: int, k: int| 0 <= b < run.len() && 0 <= k < run[b]@.len() implies (#[trigger] run[b]@[k]) < level.len() by {
        assert(all[ran.len() + b] == run[b]);
    }
}

/// Each task of the flattened batches stands in some batch.
proof fn lemma_flat_member(batches: Seq<Vec<usize>>, x: int)
    requires
        0 <= x < flat(batches).len(),
    ensures
        exists|b: int, k: int| 0 <= b < batches.len() && 0 <= k < batches[b]@.len() && batches[b]@[k] == flat(batches)[x],
    decreases batches.len(),
{
    let d = batches.drop_last();
    if x < flat(d).len() {
        lemma_flat_member(d, x);
        let (b, k) = choose|b: int, k: int| 0 <= b < d.len() && 0 <= k < d[b]@.len() && d[b]@[k] == flat(d)[x];
        assert(batches[b] == d[b]);
    } else {
        let k = x - flat(d).len();
        assert(flat(batches)[x] == batches.last()@[k]);
    }
}

} // verus!

verus! {

/// On a store that holds a receipt for every task, a plan split against it
/// has nothing left to run, so a run of it replays and changes nothing
/// (see [`Worker::run`]): rerunning a workflow on a warm store gives back
/// the receipts already stored, and no others.
pub proof fn lemma_warm_store_runs_nothing(plan: TaskPlan, instructions: Seq<Cid>, store: ReceiptStore)
    requires
        split_at_first_unsatisfied(plan.ran@ + plan.run@, satisfied_in(instructions, store), plan),
        batches_in(plan.ran@ + plan.run@, instructions.len()),
        forall|j: int| 0 <= j < instructions.len() ==> store@.contains_key(#[trigger] instructions[j]@),
    ensures
        plan.run@.len() == 0,
        flat(plan.run@).len() == 0,
{
    let all = plan.ran@ + plan.run@;
    let f = plan.ran@.len() as int;
    if f < all.len() {
        assert(!crate::scheduler::batch_satisfied(all[f]@, satisfied_in(instructions, store)));
        let k = choose|k: int| 0 <= k < all[f]@.len() && !satisfied_in(instructions, store)[#[trigger] all[f]@[k] as int];
        assert(all[f]@[k] < instructions.len());
        assert(store@.contains_key(instructions[all[f]@[k] as int]@));
    }
    assert(plan.run@ =~= Seq::<Vec<usize>>::empty());
}

} // verus!
