//! The runner's registry of running tasks: for each workflow run, the
//! handles of the tasks spawned for it, released when its worker is gone.
use vstd::prelude::*;
use crate::cid::Cid;
use crate::worker::WorkerMessage;

verus! {

/// A handle on a spawned task.
pub type TaskHandle = u64;

/// Running tasks by workflow, with at most one entry per workflow.
#[derive(Debug)]
pub struct RunningTasks {
    entries: Vec<(Cid, Vec<TaskHandle>)>,
}

impl View for RunningTasks {
    type V = Map<Seq<u8>, Seq<TaskHandle>>;

    closed spec fn view(&self) -> Map<Seq<u8>, Seq<TaskHandle>> {
        Map::new(
            |k: Seq<u8>| exists|i: int| 0 <= i < self.entries@.len() && self.entries@[i].0@ == k,
            |k: Seq<u8>| {
                let i = choose|i: int| 0 <= i < self.entries@.len() && self.entries@[i].0@ == k;
                self.entries@[i].1@
            },
        )
    }
}

impl RunningTasks {
    /// No workflow appears twice.
    pub closed spec fn wf(&self) -> bool {
        forall|i: int, j: int| 0 <= i < j < self.entries@.len() ==> self.entries@[i].0@ != self.entries@[j].0@
    }

    proof fn lemma_at(&self, i: int)
        requires
            self.wf(),
            0 <= i < self.entries@.len(),
        ensures
            self@.contains_key(self.entries@[i].0@),
            self@[self.entries@[i].0@] == self.entries@[i].1@,
    {
        let k = self.entries@[i].0@;
        assert(self@.contains_key(k));
        let j = choose|j: int| 0 <= j < self.entries@.len() && self.entries@[j].0@ == k;
        if i != j {
            if i < j {
                assert(self.entries@[i].0@ != self.entries@[j].0@);
            } else {
                assert(self.entries@[j].0@ != self.entries@[i].0@);
            }
        }
    }

    /// No running task.
    pub fn new() -> (r: RunningTasks)
        ensures
            r.wf(),
            r@ == Map::<Seq<u8>, Seq<TaskHandle>>::empty(),
    {
        let r = RunningTasks { entries: Vec::new() };
        assert(r@ =~= Map::<Seq<u8>, Seq<TaskHandle>>::empty());
        r
    }

    /// Position of the entry of `workflow`, if any.
    fn position(&self, workflow: &Cid) -> (r: Option<usize>)
        requires
            self.wf(),
        ensures
            match r {
                Some(i) => i < self.entries@.len() && self.entries@[i as int].0@ == workflow@,
                None => !self@.contains_key(workflow@),
            },
    {
        let mut i: usize = 0;
        while i < self.entries.len()
            invariant
                i <= self.entries@.len(),
                forall|j: int| 0 <= j < i ==> self.entries@[j].0@ != workflow@,
            decreases self.entries@.len() - i,
        {
            if self.entries[i].0.same(workflow) {
                return Some(i);
            }
            i = i + 1;
        }
        None
    }

    /// The handles of `workflow`'s tasks, if it runs.
    pub fn get(&self, workflow: &Cid) -> (r: Option<Vec<TaskHandle>>)
        requires
            self.wf(),
        ensures
            match r {
                Some(h) => self@.contains_key(workflow@) && h@ == self@[workflow@],
                None => !self@.contains_key(workflow@),
            },
    {
        match self.position(workflow) {
            Some(i) => {
                proof {
                    self.lemma_at(i as int);
                }
                Some(self.entries[i].1.clone())
            },
            None => None,
        }
    }

    /// Adds `handles` to those of `workflow`, after any it has.
    pub fn append_or_insert(&mut self, workflow: Cid, handles: Vec<TaskHandle>)
        requires
            old(self).wf(),
        ensures
            final(self).wf(),
            final(self)@ == old(self)@.insert(
                workflow@,
                if old(self)@.contains_key(workflow@) {
                    old(self)@[workflow@] + handles@
                } else {
                    handles@
                },
            ),
    {
        let ghost before = *self;
        let ghost k = workflow@;
        match self.position(&workflow) {
            Some(i) => {
                proof {
                    before.lemma_at(i as int);
                }
                let mut entry = self.entries.remove(i);
                let mut more = handles;
                entry.1.append(&mut more);
                let ghost v = entry.1@;
                self.entries.insert(i, entry);
                proof {
                    assert forall|a: int, b: int| 0 <= a < b < self.entries@.len() implies self.entries@[a].0@
                        != self.entries@[b].0@ by {
                        if a != i && b != i {
                            assert(self.entries@[a] == before.entries@[a]);
                            assert(self.entries@[b] == before.entries@[b]);
                        } else if a == i {
                            assert(self.entries@[b] == before.entries@[b]);
                            assert(before.entries@[i as int].0@ != before.entries@[b].0@);
                        } else {
                            assert(self.entries@[a] == before.entries@[a]);
                            assert(before.entries@[a].0@ != before.entries@[i as int].0@);
                        }
                    }
                    assert forall|q: Seq<u8>| #[trigger] self@.contains_key(q) <==> before@.insert(k, v).contains_key(q) by {
                        if self@.contains_key(q) {
                            let j = choose|j: int| 0 <= j < self.entries@.len() && self.entries@[j].0@ == q;
                            if j != i {
                                assert(self.entries@[j] == before.entries@[j]);
                            }
                        }
                        if before@.contains_key(q) {
                            let j = choose|j: int| 0 <= j < before.entries@.len() && before.entries@[j].0@ == q;
                            if j != i {
                                assert(self.entries@[j] == before.entries@[j]);
                            } else {
                                assert(self.entries@[j].0@ == q);
                            }
                        }
                        if q == k {
                            assert(self.entries@[i as int].0@ == k);
                        }
                    }
                    assert forall|q: Seq<u8>| #[trigger] self@.contains_key(q) implies self@[q] == before@.insert(k, v)[q] by {
                        let j = choose|j: int| 0 <= j < self.entries@.len() && self.entries@[j].0@ == q;
                        self.lemma_at(j);
                        if j != i {
                            assert(self.entries@[j] == before.entries@[j]);
                            before.lemma_at(j);
                        }
                    }
                    assert(self@ =~= before@.insert(k, v));
                }
            },
            None => {
                let ghost v = handles@;
                self.entries.push((workflow, handles));
                proof {
                    let n = before.entries@.len();
                    assert forall|a: int, b: int| 0 <= a < b < self.entries@.len() implies self.entries@[a].0@
                        != self.entries@[b].0@ by {
                        assert(self.entries@[a] == before.entries@[a]);
                        if b < n {
                            assert(self.entries@[b] == before.entries@[b]);
                        } else if before.entries@[a].0@ == k {
                            assert(before@.contains_key(k));
                        }
                    }
                    assert forall|q: Seq<u8>| #[trigger] self@.contains_key(q) <==> before@.insert(k, v).contains_key(q) by {
                        if self@.contains_key(q) {
                            let j = choose|j: int| 0 <= j < self.entries@.len() && self.entries@[j].0@ == q;
                            if j < n {
                                assert(self.entries@[j] == before.entries@[j]);
                            }
                        }
                        if before@.contains_key(q) {
                            let j = choose|j: int| 0 <= j < before.entries@.len() && before.entries@[j].0@ == q;
                            assert(self.entries@[j] == before.entries@[j]);
                        }
                        if q == k {
                            assert(self.entries@[n as int].0@ == k);
                        }
                    }
                    assert forall|q: Seq<u8>| #[trigger] self@.contains_key(q) implies self@[q] == before@.insert(k, v)[q] by {
                        let j = choose|j: int| 0 <= j < self.entries@.len() && self.entries@[j].0@ == q;
                        self.lemma_at(j);
                        if j < n {
                            assert(self.entries@[j] == before.entries@[j]);
                            before.lemma_at(j);
                        }
                    }
                    assert(self@ =~= before@.insert(k, v));
                }
            },
        }
    }

    /// Releases the entry of the workflow whose worker is gone, returning
    /// its handles.
    pub fn on_worker_message(&mut self, msg: WorkerMessage) -> (r: Option<Vec<TaskHandle>>)
        requires
            old(self).wf(),
        ensures
            final(self).wf(),
            match msg {
                WorkerMessage::Dropped(c) => final(self)@ == old(self)@.remove(c@) && match r {
                    Some(h) => old(self)@.contains_key(c@) && h@ == old(self)@[c@],
                    None => !old(self)@.contains_key(c@),
                },
            },
    {
        let WorkerMessage::Dropped(c) = msg;
        let ghost before = *self;
        let ghost k = c@;
        match self.position(&c) {
            Some(i) => {
                proof {
                    before.lemma_at(i as int);
                }
                let (_, handles) = self.entries.remove(i);
                proof {
                    assert forall|a: int, b: int| 0 <= a < b < self.entries@.len() implies self.entries@[a].0@
                        != self.entries@[b].0@ by {
                        let a2 = if a < i { a } else { a + 1 };
                        let b2 = if b < i { b } else { b + 1 };
                        assert(self.entries@[a] == before.entries@[a2]);
                        assert(self.entries@[b] == before.entries@[b2]);
                    }
                    assert forall|q: Seq<u8>| #[trigger] self@.contains_key(q) <==> before@.remove(k).contains_key(q) by {
                        if self@.contains_key(q) {
                            let j = choose|j: int| 0 <= j < self.entries@.len() && self.entries@[j].0@ == q;
                            let j2 = if j < i { j } else { j + 1 };
                            assert(self.entries@[j] == before.entries@[j2]);
                            assert(before@.contains_key(q));
                            if q == k {
                                assert(before.entries@[j2].0@ == before.entries@[i as int].0@);
                            }
                        }
                        if before@.remove(k).contains_key(q) {
                            let j = choose|j: int| 0 <= j < before.entries@.len() && before.entries@[j].0@ == q;
                            assert(j != i);
                            let j2 = if j < i { j } else { j - 1 };
                            assert(self.entries@[j2] == before.entries@[j]);
                        }
                    }
                    assert forall|q: Seq<u8>| #[trigger] self@.contains_key(q) implies self@[q] == before@[q] by {
                        let j = choose|j: int| 0 <= j < self.entries@.len() && self.entries@[j].0@ == q;
                        self.lemma_at(j);
                        let j2 = if j < i { j } else { j + 1 };
                        assert(self.entries@[j] == before.entries@[j2]);
                        before.lemma_at(j2);
                    }
                    assert(self@ =~= before@.remove(k));
                }
                Some(handles)
            },
            None => {
                assert(self@.remove(k) =~= self@);
                None
            },
        }
    }
}

} // verus!
