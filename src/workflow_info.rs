//! Workflow information: a workflow's identifier, name, size, progress and
//! the resources each instruction needs, and its capsule form.
use vstd::prelude::*;
use crate::cid::Cid;
use crate::receipt::{cids_view, links_val, links_from_val, links_value, links_from_value, text};
use crate::value::{Val, Value, view_items, view_entries, lemma_view_items, lemma_view_entries};

verus! {

/// Where a module or a blob comes from.
#[derive(Debug)]
pub enum Resource {
    /// A URL, such as the location of a WebAssembly module.
    Url(String),
    /// A content-addressed blob.
    Cid(Cid),
}

/// Mathematical form of a [`Resource`].
pub enum ResourceModel {
    Url(Seq<char>),
    Cid(Seq<u8>),
}

impl View for Resource {
    type V = ResourceModel;

    open spec fn view(&self) -> ResourceModel {
        match self {
            Resource::Url(u) => ResourceModel::Url(u@),
            Resource::Cid(c) => ResourceModel::Cid(c@),
        }
    }
}

impl Resource {
    /// A copy of this resource.
    pub fn copy(&self) -> (r: Resource)
        ensures
            r@ == self@,
    {
        match self {
            Resource::Url(u) => Resource::Url(u.clone()),
            Resource::Cid(c) => Resource::Cid(c.clone()),
        }
    }

    /// Whether two resources are the same.
    pub fn same(&self, other: &Resource) -> (r: bool)
        ensures
            r == (self@ == other@),
    {
        match (self, other) {
            (Resource::Url(a), Resource::Url(b)) => *a == *b,
            (Resource::Cid(a), Resource::Cid(b)) => a.same(b),
            _ => false,
        }
    }
}

/// A resource as a value.
pub open spec fn resource_val(r: ResourceModel) -> Val {
    match r {
        ResourceModel::Url(u) => Val::Text(u),
        ResourceModel::Cid(c) => Val::Link(c),
    }
}

/// Resources as values.
pub open spec fn resources_val(rs: Seq<ResourceModel>) -> Seq<Val> {
    Seq::new(rs.len(), |i: int| resource_val(rs[i]))
}

/// One entry of the indexed resources as a value: `[instruction, [resources]]`.
pub open spec fn indexed_entry_val(e: (Seq<u8>, Seq<ResourceModel>)) -> Val {
    Val::List(seq![Val::Link(e.0), Val::List(resources_val(e.1))])
}

/// Indexed resources as values.
pub open spec fn indexed_val(ix: Seq<(Seq<u8>, Seq<ResourceModel>)>) -> Seq<Val> {
    Seq::new(ix.len(), |i: int| indexed_entry_val(ix[i]))
}

/// The resource that a value stands for, if any.
pub open spec fn resource_from_val(v: Val) -> Option<ResourceModel> {
    match v {
        Val::Text(u) => Some(ResourceModel::Url(u)),
        Val::Link(c) => Some(ResourceModel::Cid(c)),
        _ => None,
    }
}

/// The resources that a list of values stands for, if every item stands for one.
pub open spec fn resources_from_val(l: Seq<Val>) -> Option<Seq<ResourceModel>> {
    if forall|i: int| 0 <= i < l.len() ==> (#[trigger] resource_from_val(l[i])) is Some {
        Some(Seq::new(l.len(), |i: int| resource_from_val(l[i])->Some_0))
    } else {
        None
    }
}

/// The indexed-resources entry that a value stands for, if any.
pub open spec fn indexed_entry_from_val(v: Val) -> Option<(Seq<u8>, Seq<ResourceModel>)> {
    match v {
        Val::List(p) => if p.len() == 2 && p[0] is Link && p[1] is List && resources_from_val(
            p[1]->List_0,
        ) is Some {
            Some((p[0]->Link_0, resources_from_val(p[1]->List_0)->Some_0))
        } else {
            None
        },
        _ => None,
    }
}

/// The indexed resources that a list of values stands for, if any.
pub open spec fn indexed_from_val(l: Seq<Val>) -> Option<Seq<(Seq<u8>, Seq<ResourceModel>)>> {
    if forall|i: int| 0 <= i < l.len() ==> (#[trigger] indexed_entry_from_val(l[i])) is Some {
        Some(Seq::new(l.len(), |i: int| indexed_entry_from_val(l[i])->Some_0))
    } else {
        None
    }
}

/// Mathematical form of the resources of each instruction.
pub open spec fn indexed_view(ix: Seq<(Cid, Vec<Resource>)>) -> Seq<(Seq<u8>, Seq<ResourceModel>)> {
    Seq::new(ix.len(), |i: int| (ix[i].0@, Seq::new(ix[i].1@.len(), |j: int| ix[i].1@[j]@)))
}

fn resources_value(rs: &Vec<Resource>) -> (r: Vec<Value>)
    ensures
        view_items(r@) == resources_val(Seq::new(rs@.len(), |j: int| rs@[j]@)),
{
    let mut out: Vec<Value> = Vec::new();
    let mut i: usize = 0;
    while i < rs.len()
        invariant
            i <= rs@.len(),
            out@.len() == i,
            forall|j: int| 0 <= j < i ==> (#[trigger] out@[j])@ == resource_val(rs@[j]@),
        decreases rs@.len() - i,
    {
        let v = match &rs[i] {
            Resource::Url(u) => Value::Text(u.clone()),
            Resource::Cid(c) => Value::Link(c.clone()),
        };
        out.push(v);
        i = i + 1;
    }
    proof {
        lemma_view_items(out@);
        assert(view_items(out@) =~= resources_val(Seq::new(rs@.len(), |j: int| rs@[j]@)));
    }
    out
}

fn resources_from_value(l: &Vec<Value>) -> (r: Option<Vec<Resource>>)
    ensures
        match r {
            Some(rs) => resources_from_val(view_items(l@)) == Some(Seq::new(rs@.len(), |j: int| rs@[j]@)),
            None => resources_from_val(view_items(l@)) is None,
        },
{
    proof {
        lemma_view_items(l@);
    }
    let ghost lv = view_items(l@);
    let mut out: Vec<Resource> = Vec::new();
    let mut i: usize = 0;
    while i < l.len()
        invariant
            lv == view_items(l@),
            lv.len() == l@.len(),
            forall|j: int| 0 <= j < l@.len() ==> #[trigger] lv[j] == l@[j]@,
            i <= l@.len(),
            out@.len() == i,
            forall|j: int| 0 <= j < i ==> resource_from_val(lv[j]) == Some((#[trigger] out@[j])@),
        decreases l@.len() - i,
    {
        let ghost before = out@;
        match &l[i] {
            Value::Text(u) => {
                out.push(Resource::Url(u.clone()));
            },
            Value::Link(c) => {
                out.push(Resource::Cid(c.clone()));
            },
            _ => {
                assert(resource_from_val(lv[i as int]) is None);
                return None;
            },
        }
        assert forall|j: int| 0 <= j < i + 1 implies resource_from_val(lv[j]) == Some(
            (#[trigger] out@[j])@,
        ) by {
            if j < i {
                assert(out@[j] == before[j]);
            }
        }
        i = i + 1;
    }
    assert forall|j: int| 0 <= j < lv.len() implies (#[trigger] resource_from_val(lv[j])) is Some by {
        assert(resource_from_val(lv[j]) == Some(out@[j]@));
    }
    assert(Seq::new(out@.len(), |j: int| out@[j]@) =~= Seq::new(
        lv.len(),
        |j: int| resource_from_val(lv[j])->Some_0,
    )) by {
        assert forall|j: int| 0 <= j < lv.len() implies resource_from_val(lv[j])->Some_0 == out@[j]@ by {
            assert(resource_from_val(lv[j]) == Some(out@[j]@));
        }
    }
    Some(out)
}

fn indexed_value(ix: &Vec<(Cid, Vec<Resource>)>) -> (r: Value)
    ensures
        r@ == Val::List(indexed_val(indexed_view(ix@))),
{
    let mut out: Vec<Value> = Vec::new();
    let mut i: usize = 0;
    while i < ix.len()
        invariant
            i <= ix@.len(),
            out@.len() == i,
            forall|j: int| 0 <= j < i ==> (#[trigger] out@[j])@ == indexed_val(indexed_view(ix@))[j],
        decreases ix@.len() - i,
    {
        let mut pair: Vec<Value> = Vec::new();
        pair.push(Value::Link(ix[i].0.clone()));
        pair.push(Value::List(resources_value(&ix[i].1)));
        proof {
            lemma_view_items(pair@);
            assert(view_items(pair@) =~= seq![Val::Link(ix@[i as int].0@), Val::List(
                resources_val(Seq::new(ix@[i as int].1@.len(), |j: int| ix@[i as int].1@[j]@)),
            )]);
        }
        out.push(Value::List(pair));
        i = i + 1;
    }
    proof {
        lemma_view_items(out@);
        assert(view_items(out@) =~= indexed_val(indexed_view(ix@)));
    }
    Value::List(out)
}

fn indexed_from_value(l: &Vec<Value>) -> (r: Option<Vec<(Cid, Vec<Resource>)>>)
    ensures
        match r {
            Some(ix) => indexed_from_val(view_items(l@)) == Some(indexed_view(ix@)),
            None => indexed_from_val(view_items(l@)) is None,
        },
{
    proof {
        lemma_view_items(l@);
    }
    let ghost lv = view_items(l@);
    let mut out: Vec<(Cid, Vec<Resource>)> = Vec::new();
    let mut i: usize = 0;
    while i < l.len()
        invariant
            lv == view_items(l@),
            lv.len() == l@.len(),
            forall|j: int| 0 <= j < l@.len() ==> #[trigger] lv[j] == l@[j]@,
            i <= l@.len(),
            out@.len() == i,
            forall|j: int| 0 <= j < i ==> indexed_entry_from_val(lv[j]) == Some(#[trigger] indexed_view(out@)[j]),
        decreases l@.len() - i,
    {
        let ghost before = out@;
        let p = match &l[i] {
            Value::List(p) => p,
            _ => {
                assert(indexed_entry_from_val(lv[i as int]) is None);
                return None;
            },
        };
        proof {
            lemma_view_items(p@);
        }
        if p.len() != 2 {
            assert(indexed_entry_from_val(lv[i as int]) is None);
            return None;
        }
        let c = match &p[0] {
            Value::Link(c) => c.clone(),
            _ => {
                assert(indexed_entry_from_val(lv[i as int]) is None);
                return None;
            },
        };
        let rs = match &p[1] {
            Value::List(rl) => match resources_from_value(rl) {
                Some(rs) => rs,
                None => {
                    assert(indexed_entry_from_val(lv[i as int]) is None);
                    return None;
                },
            },
            _ => {
                assert(indexed_entry_from_val(lv[i as int]) is None);
                return None;
            },
        };
        out.push((c, rs));
        assert forall|j: int| 0 <= j < i + 1 implies indexed_entry_from_val(lv[j]) == Some(
            #[trigger] indexed_view(out@)[j],
        ) by {
            if j < i {
                assert(out@[j] == before[j]);
                assert(indexed_view(out@)[j] == indexed_view(before)[j]);
            }
        }
        i = i + 1;
    }
    assert forall|j: int| 0 <= j < lv.len() implies (#[trigger] indexed_entry_from_val(lv[j])) is Some by {
        assert(indexed_entry_from_val(lv[j]) == Some(indexed_view(out@)[j]));
    }
    assert(indexed_view(out@) =~= Seq::new(lv.len(), |j: int| indexed_entry_from_val(lv[j])->Some_0)) by {
        assert forall|j: int| 0 <= j < lv.len() implies indexed_entry_from_val(lv[j])->Some_0
            == indexed_view(out@)[j] by {
            assert(indexed_entry_from_val(lv[j]) == Some(indexed_view(out@)[j]));
        }
    }
    Some(out)
}

pub open spec fn key_cid() -> Seq<char> {
    seq!['c', 'i', 'd']
}

pub open spec fn key_name() -> Seq<char> {
    seq!['n', 'a', 'm', 'e']
}

pub open spec fn key_num_tasks() -> Seq<char> {
    seq!['n', 'u', 'm', '_', 't', 'a', 's', 'k', 's']
}

pub open spec fn key_progress() -> Seq<char> {
    seq!['p', 'r', 'o', 'g', 'r', 'e', 's', 's']
}

pub open spec fn key_progress_count() -> Seq<char> {
    seq!['p', 'r', 'o', 'g', 'r', 'e', 's', 's', '_', 'c', 'o', 'u', 'n', 't']
}

pub open spec fn key_resources() -> Seq<char> {
    seq!['r', 'e', 's', 'o', 'u', 'r', 'c', 'e', 's']
}

/// Capsule tag of workflow information.
pub open spec fn workflow_tag() -> Seq<char> {
    seq!['w', 'o', 'r', 'k', 'f', 'l', 'o', 'w']
}

/// Mathematical form of workflow information.
pub struct WorkflowInfoModel {
    pub cid: Seq<u8>,
    pub name: Option<Seq<char>>,
    pub num_tasks: nat,
    pub progress: Seq<Seq<u8>>,
    pub progress_count: nat,
    pub resources: Seq<(Seq<u8>, Seq<ResourceModel>)>,
}

/// Information on a workflow run: its identifier, an optional local name,
/// how many tasks it has, the receipts recorded so far and the resources
/// each instruction needs.
#[derive(Debug)]
pub struct WorkflowInfo {
    pub cid: Cid,
    pub name: Option<String>,
    pub num_tasks: u32,
    pub progress: Vec<Cid>,
    pub progress_count: u32,
    pub resources: Vec<(Cid, Vec<Resource>)>,
}

impl View for WorkflowInfo {
    type V = WorkflowInfoModel;

    open spec fn view(&self) -> WorkflowInfoModel {
        WorkflowInfoModel {
            cid: self.cid@,
            name: match self.name {
                Some(s) => Some(s@),
                None => None,
            },
            num_tasks: self.num_tasks as nat,
            progress: cids_view(self.progress@),
            progress_count: self.progress_count as nat,
            resources: indexed_view(self.resources@),
        }
    }
}

/// Progress holds no identifier twice, is counted exactly, and does not
/// exceed the number of tasks.
pub open spec fn progress_wf(m: WorkflowInfoModel) -> bool {
    &&& m.progress_count == m.progress.len()
    &&& m.progress_count <= m.num_tasks
    &&& forall|i: int, j: int| 0 <= i < j < m.progress.len() ==> m.progress[i] != m.progress[j]
}

/// The value of an optional name.
pub open spec fn name_val(name: Option<Seq<char>>) -> Val {
    match name {
        Some(s) => Val::Text(s),
        None => Val::Null,
    }
}

/// Workflow information as a value.
pub open spec fn info_val(m: WorkflowInfoModel) -> Val {
    Val::Dict(
        seq![
            (key_cid(), Val::Link(m.cid)),
            (key_name(), name_val(m.name)),
            (key_num_tasks(), Val::Integer(m.num_tasks as int)),
            (key_progress(), Val::List(links_val(m.progress))),
            (key_progress_count(), Val::Integer(m.progress_count as int)),
            (key_resources(), Val::List(indexed_val(m.resources))),
        ],
    )
}

/// The workflow information that a value stands for, if any.
pub open spec fn info_from_val(v: Val) -> Option<WorkflowInfoModel> {
    match v {
        Val::Dict(d) => if d.len() == 6 && d[0].0 == key_cid() && d[1].0 == key_name() && d[2].0
            == key_num_tasks() && d[3].0 == key_progress() && d[4].0 == key_progress_count()
            && d[5].0 == key_resources() && d[0].1 is Link && (d[1].1 is Null || d[1].1 is Text)
            && d[2].1 is Integer && 0 <= d[2].1->Integer_0 <= u32::MAX && d[3].1 is List
            && links_from_val(d[3].1->List_0) is Some && d[4].1 is Integer && 0 <= d[4].1->Integer_0
            <= u32::MAX && d[5].1 is List && indexed_from_val(d[5].1->List_0) is Some {
            Some(
                WorkflowInfoModel {
                    cid: d[0].1->Link_0,
                    name: if d[1].1 is Text {
                        Some(d[1].1->Text_0)
                    } else {
                        None
                    },
                    num_tasks: d[2].1->Integer_0 as nat,
                    progress: links_from_val(d[3].1->List_0)->Some_0,
                    progress_count: d[4].1->Integer_0 as nat,
                    resources: indexed_from_val(d[5].1->List_0)->Some_0,
                },
            )
        } else {
            None
        },
        _ => None,
    }
}

/// The progress after recording `c`: unchanged if `c` is recorded already
/// or the progress is full, else with `c` appended.
pub open spec fn progress_after(m: WorkflowInfoModel, c: Seq<u8>) -> Seq<Seq<u8>> {
    if !m.progress.contains(c) && m.progress_count < m.num_tasks {
        m.progress.push(c)
    } else {
        m.progress
    }
}

/// Whether `c` is among `cids`.
pub fn contains_cid(cids: &Vec<Cid>, c: &Cid) -> (r: bool)
    ensures
        r == cids_view(cids@).contains(c@),
{
    let mut i: usize = 0;
    while i < cids.len()
        invariant
            i <= cids@.len(),
            forall|j: int| 0 <= j < i ==> cids@[j]@ != c@,
        decreases cids@.len() - i,
    {
        if cids[i].same(c) {
            assert(cids_view(cids@)[i as int] == c@);
            return true;
        }
        i = i + 1;
    }
    assert(!cids_view(cids@).contains(c@)) by {
        if cids_view(cids@).contains(c@) {
            let k = choose|k: int| 0 <= k < cids_view(cids@).len() && cids_view(cids@)[k] == c@;
            assert(cids@[k]@ == c@);
        }
    }
    false
}

impl WorkflowInfo {
    /// Information on a workflow run that has recorded nothing yet.
    pub fn new(cid: Cid, num_tasks: u32, name: Option<String>, resources: Vec<(Cid, Vec<Resource>)>) -> (r: WorkflowInfo)
        ensures
            r@.cid == cid@,
            r@.num_tasks == num_tasks,
            r@.progress.len() == 0,
            r@.progress_count == 0,
            r.name == name,
            r.resources == resources,
            progress_wf(r@),
    {
        WorkflowInfo { cid, name, num_tasks, progress: Vec::new(), progress_count: 0, resources }
    }

    /// Records `c` as progress. An identifier already recorded is not
    /// recorded again, and nothing is recorded beyond the number of tasks.
    /// Returns whether `c` was added.
    pub fn increment_progress(&mut self, c: Cid) -> (added: bool)
        requires
            progress_wf(old(self)@),
        ensures
            progress_wf(final(self)@),
            added == (!old(self)@.progress.contains(c@) && old(self)@.progress_count < old(self)@.num_tasks),
            final(self)@.progress == progress_after(old(self)@, c@),
            final(self)@.progress_count == final(self)@.progress.len(),
            final(self)@.cid == old(self)@.cid,
            final(self)@.num_tasks == old(self)@.num_tasks,
            final(self).name == old(self).name,
            final(self).resources == old(self).resources,
    {
        if contains_cid(&self.progress, &c) || self.progress_count >= self.num_tasks {
            return false;
        }
        let ghost before = self@.progress;
        self.progress.push(c);
        self.progress_count = self.progress_count + 1;
        proof {
            assert(cids_view(self.progress@) =~= before.push(c@));
        }
        true
    }

    /// This information as a value.
    pub fn to_value(&self) -> (r: Value)
        ensures
            r@ == info_val(self@),
    {
        let name = match &self.name {
            Some(s) => Value::Text(s.clone()),
            None => Value::Null,
        };
        let mut entries: Vec<(String, Value)> = Vec::new();
        entries.push((text("cid"), Value::Link(self.cid.clone())));
        entries.push((text("name"), name));
        entries.push((text("num_tasks"), Value::Integer(self.num_tasks as i64)));
        entries.push((text("progress"), links_value(&self.progress)));
        entries.push((text("progress_count"), Value::Integer(self.progress_count as i64)));
        entries.push((text("resources"), indexed_value(&self.resources)));
        proof {
            reveal_strlit("cid");
            reveal_strlit("name");
            reveal_strlit("num_tasks");
            reveal_strlit("progress");
            reveal_strlit("progress_count");
            reveal_strlit("resources");
            assert("cid"@ =~= key_cid());
            assert("name"@ =~= key_name());
            assert("num_tasks"@ =~= key_num_tasks());
            assert("progress"@ =~= key_progress());
            assert("progress_count"@ =~= key_progress_count());
            assert("resources"@ =~= key_resources());
            lemma_view_entries(entries@);
            assert(view_entries(entries@) =~= info_val(self@)->Dict_0);
        }
        Value::Dict(entries)
    }

    /// The workflow information that a value stands for, if any.
    pub fn from_value(v: Value) -> (r: Option<WorkflowInfo>)
        ensures
            match r {
                Some(x) => info_from_val(v@) == Some(x@),
                None => info_from_val(v@) is None,
            },
    {
        proof {
            reveal_strlit("cid");
            reveal_strlit("name");
            reveal_strlit("num_tasks");
            reveal_strlit("progress");
            reveal_strlit("progress_count");
            reveal_strlit("resources");
            assert("cid"@ =~= key_cid());
            assert("name"@ =~= key_name());
            assert("num_tasks"@ =~= key_num_tasks());
            assert("progress"@ =~= key_progress());
            assert("progress_count"@ =~= key_progress_count());
            assert("resources"@ =~= key_resources());
        }
        let ghost vv = v@;
        let mut d = match v {
            Value::Dict(d) => d,
            _ => {
                return None;
            },
        };
        proof {
            lemma_view_entries(d@);
        }
        let ghost dv = view_entries(d@);
        assert(vv == Val::Dict(dv));
        if d.len() != 6 {
            return None;
        }
        let (k5, resources) = d.pop().unwrap();
        let (k4, count) = d.pop().unwrap();
        let (k3, progress) = d.pop().unwrap();
        let (k2, num_tasks) = d.pop().unwrap();
        let (k1, name) = d.pop().unwrap();
        let (k0, cid) = d.pop().unwrap();
        if !(k0 == text("cid") && k1 == text("name") && k2 == text("num_tasks") && k3 == text(
            "progress",
        ) && k4 == text("progress_count") && k5 == text("resources")) {
            return None;
        }
        let cid = match cid {
            Value::Link(c) => c,
            _ => {
                return None;
            },
        };
        let name = match name {
            Value::Null => None,
            Value::Text(s) => Some(s),
            _ => {
                return None;
            },
        };
        let num_tasks = match num_tasks {
            Value::Integer(n) => if 0 <= n && n <= u32::MAX as i64 {
                n as u32
            } else {
                return None;
            },
            _ => {
                return None;
            },
        };
        let progress_count = match count {
            Value::Integer(n) => if 0 <= n && n <= u32::MAX as i64 {
                n as u32
            } else {
                return None;
            },
            _ => {
                return None;
            },
        };
        let progress = match &progress {
            Value::List(l) => match links_from_value(l) {
                Some(c) => c,
                None => {
                    return None;
                },
            },
            _ => {
                return None;
            },
        };
        let resources = match &resources {
            Value::List(l) => match indexed_from_value(l) {
                Some(ix) => ix,
                None => {
                    return None;
                },
            },
            _ => {
                return None;
            },
        };
        Some(WorkflowInfo { cid, name, num_tasks, progress, progress_count, resources })
    }
}

/// Once the distinct receipts of all tasks are recorded as progress, the
/// progress is complete: its count and its length are the number of tasks.
pub proof fn lemma_progress_complete(m: WorkflowInfoModel, receipts: Seq<Seq<u8>>)
    requires
        progress_wf(m),
        receipts.len() == m.num_tasks,
        receipts.no_duplicates(),
        forall|i: int| 0 <= i < receipts.len() ==> m.progress.contains(#[trigger] receipts[i]),
    ensures
        m.progress_count == m.num_tasks,
        m.progress.len() == m.num_tasks,
{
    let p = m.progress;
    assert(p.no_duplicates()) by {
        assert forall|i: int, j: int| 0 <= i < p.len() && 0 <= j < p.len() && i != j implies p[i] != p[j] by {
            if i < j {
            } else {
            }
        }
    }
    receipts.unique_seq_to_set();
    p.unique_seq_to_set();
    assert forall|x: Seq<u8>| receipts.to_set().contains(x) implies p.to_set().contains(x) by {
        let i = choose|i: int| 0 <= i < receipts.len() && receipts[i] == x;
        assert(p.contains(receipts[i]));
    }
    vstd::set_lib::lemma_len_subset(receipts.to_set(), p.to_set());
}

/// While the receipt of some task is missing from progress that holds only
/// receipts of the workflow's tasks, the count stays below the number of tasks.
pub proof fn lemma_progress_partial(m: WorkflowInfoModel, receipts: Seq<Seq<u8>>, missing: int)
    requires
        progress_wf(m),
        receipts.len() == m.num_tasks,
        forall|i: int| 0 <= i < m.progress.len() ==> receipts.contains(#[trigger] m.progress[i]),
        0 <= missing < receipts.len(),
        !m.progress.contains(receipts[missing]),
    ensures
        m.progress_count < m.num_tasks,
{
    let p = m.progress;
    assert(p.no_duplicates()) by {
        assert forall|i: int, j: int| 0 <= i < p.len() && 0 <= j < p.len() && i != j implies p[i] != p[j] by {
            if i < j {
            } else {
            }
        }
    }
    p.unique_seq_to_set();
    let r = receipts.to_set();
    receipts.lemma_cardinality_of_set();
    assert forall|x: Seq<u8>| p.to_set().contains(x) implies r.remove(receipts[missing]).contains(x) by {
        let i = choose|i: int| 0 <= i < p.len() && p[i] == x;
        assert(receipts.contains(p[i]));
    }
    vstd::set_lib::lemma_len_subset(p.to_set(), r.remove(receipts[missing]));
}

fn copy_resources(rs: &Vec<Resource>) -> (r: Vec<Resource>)
    ensures
        Seq::new(r@.len(), |j: int| r@[j]@) == Seq::new(rs@.len(), |j: int| rs@[j]@),
{
    let mut out: Vec<Resource> = Vec::new();
    let mut i: usize = 0;
    while i < rs.len()
        invariant
            i <= rs@.len(),
            out@.len() == i,
            forall|j: int| 0 <= j < i ==> (#[trigger] out@[j])@ == rs@[j]@,
        decreases rs@.len() - i,
    {
        out.push(rs[i].copy());
        i = i + 1;
    }
    assert(Seq::new(out@.len(), |j: int| out@[j]@) =~= Seq::new(rs@.len(), |j: int| rs@[j]@));
    out
}

fn copy_indexed(ix: &Vec<(Cid, Vec<Resource>)>) -> (r: Vec<(Cid, Vec<Resource>)>)
    ensures
        indexed_view(r@) == indexed_view(ix@),
{
    let mut out: Vec<(Cid, Vec<Resource>)> = Vec::new();
    let mut i: usize = 0;
    while i < ix.len()
        invariant
            i <= ix@.len(),
            out@.len() == i,
            forall|j: int| 0 <= j < i ==> #[trigger] indexed_view(out@)[j] == indexed_view(ix@)[j],
        decreases ix@.len() - i,
    {
        let ghost before = out@;
        out.push((ix[i].0.clone(), copy_resources(&ix[i].1)));
        proof {
            assert forall|j: int| 0 <= j < i + 1 implies #[trigger] indexed_view(out@)[j] == indexed_view(ix@)[j] by {
                if j < i {
                    assert(out@[j] == before[j]);
                    assert(indexed_view(before)[j] == indexed_view(ix@)[j]);
                }
            }
        }
        i = i + 1;
    }
    assert(indexed_view(out@) =~= indexed_view(ix@));
    out
}

impl WorkflowInfo {
    /// Whether the progress holds no identifier twice, is counted exactly
    /// and does not exceed the number of tasks.
    pub fn is_well_formed(&self) -> (r: bool)
        ensures
            r == progress_wf(self@),
    {
        if self.progress_count as usize != self.progress.len() || self.progress_count > self.num_tasks {
            return false;
        }
        let ghost p = cids_view(self.progress@);
        let n = self.progress.len();
        let mut i: usize = 0;
        while i < n
            invariant
                n == self.progress@.len(),
                p == cids_view(self.progress@),
                i <= n,
                forall|a: int, b: int| 0 <= a < b < n && a < i ==> p[a] != p[b],
            decreases n - i,
        {
            let mut j: usize = i + 1;
            while j < n
                invariant
                    n == self.progress@.len(),
                    p == cids_view(self.progress@),
                    i < n,
                    i + 1 <= j <= n,
                    forall|a: int, b: int| 0 <= a < b < n && a < i ==> p[a] != p[b],
                    forall|b: int| i < b < j ==> p[i as int] != p[b],
                decreases n - j,
            {
                if self.progress[i].same(&self.progress[j]) {
                    assert(p[i as int] == p[j as int]);
                    assert(self@.progress == p);
                    return false;
                }
                j = j + 1;
            }
            i = i + 1;
        }
        true
    }

    /// A copy of this information.
    pub fn copy(&self) -> (r: WorkflowInfo)
        ensures
            r@ == self@,
    {
        WorkflowInfo {
            cid: self.cid.clone(),
            name: match &self.name {
                Some(n) => Some(n.clone()),
                None => None,
            },
            num_tasks: self.num_tasks,
            progress: crate::receipt::copy_cids(&self.progress),
            progress_count: self.progress_count,
            resources: copy_indexed(&self.resources),
        }
    }
}

} // verus!
