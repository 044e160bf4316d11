//! Instructions, tasks and their inputs: what a task runs, the identifiers
//! that name it, and the awaited results of other instructions it reads.
use vstd::prelude::*;
use crate::cid::{Cid, cid_of_encoding};
use crate::codec::{canonical_encoding, encode};
use crate::receipt::{cids_view, links_val, links_value, text};
use crate::value::{Val, Value, view_items, view_entries, lemma_view_items, lemma_view_entries};
use crate::workflow_info::{indexed_view, Resource, ResourceModel};

verus! {

/// The pure description of one unit of work.
#[derive(Debug)]
pub struct Instruction {
    /// Where the module lives.
    pub resource: String,
    /// The registered task type, such as `wasm/run`.
    pub op: String,
    /// The input: the function to call and its arguments.
    pub input: Value,
    pub nonce: Vec<u8>,
}

/// Mathematical form of an instruction.
pub struct InstructionModel {
    pub resource: Seq<char>,
    pub op: Seq<char>,
    pub input: Val,
    pub nonce: Seq<u8>,
}

impl View for Instruction {
    type V = InstructionModel;

    open spec fn view(&self) -> InstructionModel {
        InstructionModel { resource: self.resource@, op: self.op@, input: self.input@, nonce: self.nonce@ }
    }
}

/// An instruction as a value.
pub open spec fn instruction_val(m: InstructionModel) -> Val {
    Val::Dict(
        seq![
            (seq!['i', 'n', 'p', 'u', 't'], m.input),
            (seq!['n', 'o', 'n', 'c', 'e'], Val::Bytes(m.nonce)),
            (seq!['o', 'p'], Val::Text(m.op)),
            (seq!['r', 's', 'c'], Val::Text(m.resource)),
        ],
    )
}

/// The identifier of an instruction.
pub open spec fn instruction_cid(m: InstructionModel) -> Seq<u8> {
    cid_of_encoding(canonical_encoding(instruction_val(m)))
}

/// A task: an instruction to run, with its proofs.
#[derive(Debug)]
pub struct Task {
    pub run: Instruction,
    pub prf: Vec<Cid>,
}

/// An invocation of a task as a value.
pub open spec fn invocation_val(run: InstructionModel, prf: Seq<Seq<u8>>) -> Val {
    Val::Dict(seq![(seq!['p', 'r', 'f'], Val::List(links_val(prf))), (seq!['r', 'u', 'n'], instruction_val(run))])
}

impl Instruction {
    /// This instruction as a value.
    pub fn to_value(&self) -> (r: Value)
        ensures
            r@ == instruction_val(self@),
    {
        let mut entries: Vec<(String, Value)> = Vec::new();
        entries.push((text("input"), self.input.copy()));
        entries.push((text("nonce"), Value::Bytes(self.nonce.clone())));
        entries.push((text("op"), Value::Text(self.op.clone())));
        entries.push((text("rsc"), Value::Text(self.resource.clone())));
        proof {
            reveal_strlit("input");
            reveal_strlit("nonce");
            reveal_strlit("op");
            reveal_strlit("rsc");
            assert("input"@ =~= seq!['i', 'n', 'p', 'u', 't']);
            assert("nonce"@ =~= seq!['n', 'o', 'n', 'c', 'e']);
            assert("op"@ =~= seq!['o', 'p']);
            assert("rsc"@ =~= seq!['r', 's', 'c']);
            lemma_view_entries(entries@);
            assert(view_entries(entries@) =~= instruction_val(self@)->Dict_0);
        }
        Value::Dict(entries)
    }

    /// The identifier of this instruction.
    pub fn cid(&self) -> (r: Cid)
        ensures
            r@ == instruction_cid(self@),
    {
        let bytes = encode(&self.to_value());
        Cid::of_encoding(bytes.as_slice())
    }
}

impl Task {
    /// The task's invocation as a value.
    pub fn to_value(&self) -> (r: Value)
        ensures
            r@ == invocation_val(self.run@, cids_view(self.prf@)),
    {
        let mut entries: Vec<(String, Value)> = Vec::new();
        entries.push((text("prf"), links_value(&self.prf)));
        entries.push((text("run"), self.run.to_value()));
        proof {
            reveal_strlit("prf");
            reveal_strlit("run");
            assert("prf"@ =~= seq!['p', 'r', 'f']);
            assert("run"@ =~= seq!['r', 'u', 'n']);
            lemma_view_entries(entries@);
            assert(view_entries(entries@) =~= invocation_val(self.run@, cids_view(self.prf@))->Dict_0);
        }
        Value::Dict(entries)
    }

    /// The identifier of the task's invocation.
    pub fn invocation_cid(&self) -> (r: Cid)
        ensures
            r@ == cid_of_encoding(canonical_encoding(invocation_val(self.run@, cids_view(self.prf@)))),
    {
        let bytes = encode(&self.to_value());
        Cid::of_encoding(bytes.as_slice())
    }
}

/// The invocations of a workflow's tasks, in order.
pub open spec fn workflow_val(tasks: Seq<Task>) -> Val {
    Val::List(Seq::new(tasks.len(), |i: int| invocation_val(tasks[i].run@, cids_view(tasks[i].prf@))))
}

/// The identifier of a workflow: that of the list of its tasks' invocations.
pub fn workflow_cid(tasks: &Vec<Task>) -> (r: Cid)
    ensures
        r@ == cid_of_encoding(canonical_encoding(workflow_val(tasks@))),
{
    let mut items: Vec<Value> = Vec::new();
    let mut i: usize = 0;
    while i < tasks.len()
        invariant
            i <= tasks@.len(),
            items@.len() == i,
            forall|j: int| 0 <= j < i ==> (#[trigger] items@[j])@ == invocation_val(tasks@[j].run@, cids_view(tasks@[j].prf@)),
        decreases tasks@.len() - i,
    {
        items.push(tasks[i].to_value());
        i = i + 1;
    }
    proof {
        lemma_view_items(items@);
        assert(view_items(items@) =~= workflow_val(tasks@)->List_0);
    }
    let bytes = encode(&Value::List(items));
    Cid::of_encoding(bytes.as_slice())
}

/// Which outcome of another instruction an argument waits for.
#[derive(Debug, Clone, Copy, PartialEq, Eq)]
pub enum AwaitKind {
    /// `await/ok`: its success.
    Success,
    /// `await/error`: its failure.
    Failure,
    /// `await/*`: its result, whatever it is.
    Any,
}

/// An argument of a task: a value, or the awaited result of another
/// instruction.
#[derive(Debug)]
pub enum Arg {
    Value(Value),
    Await(AwaitKind, Cid),
}

/// Mathematical form of an argument.
pub enum ArgModel {
    Value(Val),
    Await(AwaitKind, Seq<u8>),
}

impl View for Arg {
    type V = ArgModel;

    open spec fn view(&self) -> ArgModel {
        match self {
            Arg::Value(v) => ArgModel::Value(v@),
            Arg::Await(k, c) => ArgModel::Await(*k, c@),
        }
    }
}

pub open spec fn await_key(k: AwaitKind) -> Seq<char> {
    match k {
        AwaitKind::Success => seq!['a', 'w', 'a', 'i', 't', '/', 'o', 'k'],
        AwaitKind::Failure => seq!['a', 'w', 'a', 'i', 't', '/', 'e', 'r', 'r', 'o', 'r'],
        AwaitKind::Any => seq!['a', 'w', 'a', 'i', 't', '/', '*'],
    }
}

/// The argument that a value stands for: an awaited link is a map of one
/// entry from an await key to a link; anything else is a plain value.
pub open spec fn arg_from_val(v: Val) -> ArgModel {
    match v {
        Val::Dict(d) => if d.len() == 1 && d[0].1 is Link && d[0].0 == await_key(AwaitKind::Success) {
            ArgModel::Await(AwaitKind::Success, d[0].1->Link_0)
        } else if d.len() == 1 && d[0].1 is Link && d[0].0 == await_key(AwaitKind::Failure) {
            ArgModel::Await(AwaitKind::Failure, d[0].1->Link_0)
        } else if d.len() == 1 && d[0].1 is Link && d[0].0 == await_key(AwaitKind::Any) {
            ArgModel::Await(AwaitKind::Any, d[0].1->Link_0)
        } else {
            ArgModel::Value(v)
        },
        _ => ArgModel::Value(v),
    }
}

/// The argument that a value stands for.
pub fn arg_from_value(v: Value) -> (r: Arg)
    ensures
        r@ == arg_from_val(v@),
{
    proof {
        reveal_strlit("await/ok");
        reveal_strlit("await/error");
        reveal_strlit("await/*");
        assert("await/ok"@ =~= await_key(AwaitKind::Success));
        assert("await/error"@ =~= await_key(AwaitKind::Failure));
        assert("await/*"@ =~= await_key(AwaitKind::Any));
    }
    let ghost vv = v@;
    match v {
        Value::Dict(d) => {
            proof {
                lemma_view_entries(d@);
            }
            if d.len() == 1 {
                if let Value::Link(c) = &d[0].1 {
                    let kind = if d[0].0 == text("await/ok") {
                        Some(AwaitKind::Success)
                    } else if d[0].0 == text("await/error") {
                        Some(AwaitKind::Failure)
                    } else if d[0].0 == text("await/*") {
                        Some(AwaitKind::Any)
                    } else {
                        None
                    };
                    if let Some(k) = kind {
                        return Arg::Await(k, c.clone());
                    }
                }
            }
            Arg::Value(Value::Dict(d))
        },
        other => Arg::Value(other),
    }
}

/// Why an instruction's input cannot be read.
#[derive(Debug, Clone, Copy, PartialEq, Eq)]
pub enum InputParseError {
    /// The input is not a map of `args` (a list) and `func` (a text).
    UnexpectedShape,
}

/// The arguments that values stand for.
pub open spec fn args_from_vals(l: Seq<Val>) -> Seq<ArgModel> {
    Seq::new(l.len(), |i: int| arg_from_val(l[i]))
}

/// Mathematical form of arguments.
pub open spec fn args_view(a: Seq<Arg>) -> Seq<ArgModel> {
    Seq::new(a.len(), |i: int| a[i]@)
}

/// The function to call and its arguments, if the input has the expected shape.
pub open spec fn parse_input_spec(v: Val) -> Option<(Seq<char>, Seq<ArgModel>)> {
    match v {
        Val::Dict(d) => if d.len() == 2 && d[0].0 == seq!['a', 'r', 'g', 's'] && d[0].1 is List && d[1].0
            == seq!['f', 'u', 'n', 'c'] && d[1].1 is Text {
            Some((d[1].1->Text_0, args_from_vals(d[0].1->List_0)))
        } else {
            None
        },
        _ => None,
    }
}

/// An instruction's input, read.
#[derive(Debug)]
pub struct Parsed {
    pub func: String,
    pub args: Vec<Arg>,
}

/// Reads an instruction's input: the function to call and its arguments.
pub fn parse_input(input: Value) -> (r: Result<Parsed, InputParseError>)
    ensures
        match r {
            Ok(p) => parse_input_spec(input@) == Some((p.func@, args_view(p.args@))),
            Err(_) => parse_input_spec(input@) is None,
        },
{
    proof {
        reveal_strlit("args");
        reveal_strlit("func");
        assert("args"@ =~= seq!['a', 'r', 'g', 's']);
        assert("func"@ =~= seq!['f', 'u', 'n', 'c']);
    }
    let ghost iv = input@;
    let mut d = match input {
        Value::Dict(d) => d,
        _ => {
            return Err(InputParseError::UnexpectedShape);
        },
    };
    proof {
        lemma_view_entries(d@);
    }
    assert(iv == Val::Dict(view_entries(d@)));
    if d.len() != 2 {
        return Err(InputParseError::UnexpectedShape);
    }
    let (kf, f) = d.pop().unwrap();
    let (ka, a) = d.pop().unwrap();
    if !(ka == text("args") && kf == text("func")) {
        return Err(InputParseError::UnexpectedShape);
    }
    let func = match f {
        Value::Text(s) => s,
        _ => {
            return Err(InputParseError::UnexpectedShape);
        },
    };
    let mut items = match a {
        Value::List(l) => l,
        _ => {
            return Err(InputParseError::UnexpectedShape);
        },
    };
    proof {
        lemma_view_items(items@);
    }
    let ghost lv = view_items(items@);
    let n = items.len();
    let mut rev: Vec<Arg> = Vec::new();
    let mut i: usize = n;
    while i > 0
        invariant
            i <= n,
            items@.len() == i,
            forall|j: int| 0 <= j < i ==> items@[j]@ == #[trigger] lv[j],
            lv.len() == n,
            rev@.len() == n - i,
            forall|j: int| 0 <= j < n - i ==> (#[trigger] rev@[j])@ == arg_from_val(lv[n - 1 - j]),
        decreases i,
    {
        let v = items.pop().unwrap();
        rev.push(arg_from_value(v));
        i = i - 1;
    }
    let mut args: Vec<Arg> = Vec::new();
    while rev.len() > 0
        invariant
            rev@.len() + args@.len() == n,
            forall|j: int| 0 <= j < rev@.len() ==> (#[trigger] rev@[j])@ == arg_from_val(lv[n - 1 - j]),
            forall|j: int| 0 <= j < args@.len() ==> (#[trigger] args@[j])@ == arg_from_val(lv[j]),
        decreases rev@.len(),
    {
        let x = rev.pop().unwrap();
        args.push(x);
    }
    assert(args_view(args@) =~= args_from_vals(lv));
    Ok(Parsed { func, args })
}

/// The identifiers that the arguments await, in order.
pub open spec fn awaited(args: Seq<ArgModel>) -> Seq<Seq<u8>>
    decreases args.len(),
{
    if args.len() == 0 {
        Seq::empty()
    } else {
        let rest = awaited(args.drop_last());
        match args.last() {
            ArgModel::Await(_, c) => rest.push(c),
            ArgModel::Value(_) => rest,
        }
    }
}

impl Parsed {
    /// The identifiers that the arguments await, in order.
    pub fn awaits(&self) -> (r: Vec<Cid>)
        ensures
            cids_view(r@) == awaited(args_view(self.args@)),
    {
        let ghost all = args_view(self.args@);
        let mut out: Vec<Cid> = Vec::new();
        let mut i: usize = 0;
        while i < self.args.len()
            invariant
                i <= self.args@.len(),
                all == args_view(self.args@),
                cids_view(out@) == awaited(all.subrange(0, i as int)),
            decreases self.args@.len() - i,
        {
            proof {
                assert(all.subrange(0, i + 1).drop_last() =~= all.subrange(0, i as int));
            }
            match &self.args[i] {
                Arg::Await(_, c) => {
                    let ghost before = out@;
                    out.push(c.clone());
                    assert(cids_view(out@) =~= cids_view(before).push(c@));
                },
                Arg::Value(_) => {},
            }
            i = i + 1;
        }
        assert(all.subrange(0, i as int) =~= all);
        out
    }
}

/// For each task, its instruction's identifier and the module it needs.
pub open spec fn indexed_resources_spec(tasks: Seq<Task>) -> Seq<(Seq<u8>, Seq<ResourceModel>)> {
    Seq::new(tasks.len(), |j: int| (instruction_cid(tasks[j].run@), seq![ResourceModel::Url(tasks[j].run.resource@)]))
}

/// For each task, its instruction's identifier and the module it needs.
pub fn indexed_resources(tasks: &Vec<Task>) -> (r: Vec<(Cid, Vec<Resource>)>)
    ensures
        indexed_view(r@) == indexed_resources_spec(tasks@),
        indexed_view(r@).len() == tasks@.len(),
        forall|j: int|
            0 <= j < tasks@.len() ==> #[trigger] indexed_view(r@)[j] == (
                instruction_cid(tasks@[j].run@),
                seq![ResourceModel::Url(tasks@[j].run.resource@)],
            ),
{
    let mut out: Vec<(Cid, Vec<Resource>)> = Vec::new();
    let mut i: usize = 0;
    while i < tasks.len()
        invariant
            i <= tasks@.len(),
            out@.len() == i,
            forall|j: int|
                0 <= j < i ==> #[trigger] indexed_view(out@)[j] == (
                    instruction_cid(tasks@[j].run@),
                    seq![ResourceModel::Url(tasks@[j].run.resource@)],
                ),
        decreases tasks@.len() - i,
    {
        let mut rs: Vec<Resource> = Vec::new();
        rs.push(Resource::Url(tasks[i].run.resource.clone()));
        let ghost before = out@;
        let ghost rv = rs@;
        out.push((tasks[i].run.cid(), rs));
        proof {
            assert(Seq::new(rv.len(), |k: int| rv[k]@) =~= seq![ResourceModel::Url(tasks@[i as int].run.resource@)]);
            assert forall|j: int| 0 <= j < i + 1 implies #[trigger] indexed_view(out@)[j] == (
                instruction_cid(tasks@[j].run@),
                seq![ResourceModel::Url(tasks@[j].run.resource@)],
            ) by {
                if j < i {
                    assert(out@[j] == before[j]);
                    assert(indexed_view(before)[j] == indexed_view(out@)[j]);
                }
            }
        }
        i = i + 1;
    }
    assert(indexed_view(out@) =~= indexed_resources_spec(tasks@));
    out
}

} // verus!
