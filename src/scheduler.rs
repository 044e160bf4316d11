//! The planner: layers a workflow's dependency graph into batches of
//! mutually independent tasks and splits them into those already satisfied
//! by stored receipts and those still to run.
use vstd::prelude::*;
use crate::cid::Cid;
use crate::receipt::cids_view;
use crate::store::ReceiptStore;

verus! {

/// Why a workflow cannot be planned.
#[derive(Debug, Clone, Copy, PartialEq, Eq)]
pub enum SchedulerError {
    /// Some tasks depend on one another in a cycle.
    CyclicWorkflow,
}

/// Every dependency names a task of the workflow.
pub open spec fn deps_in_range(deps: Seq<Vec<usize>>) -> bool {
    forall|j: int, k: int|
        0 <= j < deps.len() && 0 <= k < deps[j]@.len() ==> (#[trigger] deps[j]@[k]) < deps.len()
}

/// `level` puts every task after all its dependencies, and each task with
/// dependencies right after the latest of them: the batch of a task is the
/// length of the longest chain of dependencies below it.
pub open spec fn layered(deps: Seq<Vec<usize>>, level: Seq<usize>) -> bool {
    &&& level.len() == deps.len()
    &&& forall|j: int, k: int|
        0 <= j < deps.len() && 0 <= k < deps[j]@.len() ==> level[#[trigger] deps[j]@[k] as int]
            < level[j]
    &&& forall|j: int|
        0 <= j < deps.len() && #[trigger] level[j] > 0 ==> exists|k: int|
            0 <= k < deps[j]@.len() && level[deps[j]@[k] as int] == level[j] - 1
}

/// `s` is a non-empty set of tasks each of which depends on a task of `s`:
/// the tasks of `s` can never all run.
pub open spec fn cycle_witness(deps: Seq<Vec<usize>>, s: Set<int>) -> bool {
    &&& exists|j: int| s.contains(j)
    &&& forall|j: int| #[trigger] s.contains(j) ==> 0 <= j < deps.len()
    &&& forall|j: int|
        #[trigger] s.contains(j) ==> exists|k: int|
            0 <= k < deps[j]@.len() && s.contains(deps[j]@[k] as int)
}

/// A workflow with a cycle witness has no layering.
pub proof fn lemma_cycle_blocks_layering(deps: Seq<Vec<usize>>, s: Set<int>, level: Seq<usize>)
    requires
        deps_in_range(deps),
        cycle_witness(deps, s),
    ensures
        !layered(deps, level),
{
    if layered(deps, level) {
        let j0 = choose|j: int| s.contains(j);
        // the task of `s` in the lowest batch has a dependency in `s` below it
        let lowest = choose|j: int| s.contains(j) && forall|i: int| s.contains(i) ==> level[j] <= level[i];
        assert(exists|j: int| s.contains(j) && forall|i: int| s.contains(i) ==> level[j] <= level[i]) by {
            lemma_min_exists(s, level, j0, level[j0] as nat);
        }
        let k = choose|k: int| 0 <= k < deps[lowest]@.len() && s.contains(deps[lowest]@[k] as int);
        let i = deps[lowest]@[k] as int;
        assert(level[i] < level[lowest]);
    }
}

proof fn lemma_min_exists(s: Set<int>, level: Seq<usize>, j0: int, bound: nat)
    requires
        s.contains(j0),
        level[j0] <= bound,
    ensures
        exists|j: int| s.contains(j) && forall|i: int| s.contains(i) ==> level[j] <= level[i],
    decreases bound,
{
    if exists|i: int| s.contains(i) && level[i] < level[j0] {
        let i = choose|i: int| s.contains(i) && level[i] < level[j0];
        lemma_min_exists(s, level, i, (level[j0] - 1) as nat);
    } else {
        assert(forall|i: int| s.contains(i) ==> level[j0] <= level[i]);
    }
}

/// Number of tasks not yet placed.
pub open spec fn count_none(s: Seq<Option<usize>>) -> nat
    decreases s.len(),
{
    if s.len() == 0 {
        0
    } else {
        (if s.last() is None { 1nat } else { 0nat }) + count_none(s.drop_last())
    }
}

proof fn lemma_count_none_update(s: Seq<Option<usize>>, j: int, x: usize)
    requires
        0 <= j < s.len(),
        s[j] is None,
    ensures
        count_none(s.update(j, Some(x))) + 1 == count_none(s),
    decreases s.len(),
{
    let t = s.update(j, Some(x));
    if j == s.len() - 1 {
        assert(t.drop_last() =~= s.drop_last());
    } else {
        assert(t.drop_last() =~= s.drop_last().update(j, Some(x)));
        lemma_count_none_update(s.drop_last(), j, x);
    }
}

/// Whether every task in `ds` is placed in `level`.
fn all_placed(level: &Vec<Option<usize>>, ds: &Vec<usize>) -> (r: bool)
    requires
        forall|k: int| 0 <= k < ds@.len() ==> (#[trigger] ds@[k]) < level@.len(),
    ensures
        r == forall|k: int| 0 <= k < ds@.len() ==> (#[trigger] level@[ds@[k] as int]) is Some,
{
    let mut k: usize = 0;
    while k < ds.len()
        invariant
            k <= ds@.len(),
            forall|k: int| 0 <= k < ds@.len() ==> (#[trigger] ds@[k]) < level@.len(),
            forall|m: int| 0 <= m < k ==> (#[trigger] level@[ds@[m] as int]) is Some,
        decreases ds@.len() - k,
    {
        if level[ds[k]].is_none() {
            return false;
        }
        k = k + 1;
    }
    true
}

/// Placement invariant: each placed task comes after its dependencies, and
/// right after the latest of them.
pub open spec fn placed_ok(deps: Seq<Vec<usize>>, level: Seq<Option<usize>>, r: int) -> bool {
    forall|j: int|
        0 <= j < deps.len() && (#[trigger] level[j]) is Some ==> {
            let l = level[j]->Some_0;
            &&& l < r
            &&& forall|k: int|
                0 <= k < deps[j]@.len() ==> level[#[trigger] deps[j]@[k] as int] is Some
                    && level[deps[j]@[k] as int]->Some_0 < l
            &&& l > 0 ==> exists|k: int|
                0 <= k < deps[j]@.len() && level[deps[j]@[k] as int] == Some((l - 1) as usize)
        }
}

/// Each task not placed after round `r - 1` waits on a task that was
/// not placed before it.
pub open spec fn waiting_ok(deps: Seq<Vec<usize>>, level: Seq<Option<usize>>, r: int) -> bool {
    r > 0 ==> forall|j: int|
        0 <= j < deps.len() && (#[trigger] level[j]) is None ==> exists|k: int|
            0 <= k < deps[j]@.len() && (level[deps[j]@[k] as int] is None || level[deps[j]@[k] as int]
                == Some((r - 1) as usize))
}

/// The batch of every task, or a cycle when some tasks can never run.
pub fn layers(deps: &Vec<Vec<usize>>) -> (r: Result<Vec<usize>, SchedulerError>)
    requires
        deps_in_range(deps@),
    ensures
        match r {
            Ok(level) => layered(deps@, level@),
            Err(_) => exists|s: Set<int>| cycle_witness(deps@, s),
        },
{
    let n = deps.len();
    let mut level: Vec<Option<usize>> = Vec::new();
    let mut j: usize = 0;
    while j < n
        invariant
            j <= n,
            level@.len() == j,
            forall|m: int| 0 <= m < j ==> (#[trigger] level@[m]) is None,
        decreases n - j,
    {
        level.push(None);
        j = j + 1;
    }
    proof {
        lemma_count_none_all(level@);
    }
    let mut r: usize = 0;
    loop
        invariant
            n == deps@.len(),
            deps_in_range(deps@),
            level@.len() == n,
            r + count_none(level@) <= n,
            placed_ok(deps@, level@, r as int),
            waiting_ok(deps@, level@, r as int),
        ensures
            level@.len() == n,
            placed_ok(deps@, level@, r as int),
            stalled(deps@, level@),
        decreases count_none(level@),
    {
        let snapshot = level.clone();
        assert(snapshot@ == level@);
        let mut changed = false;
        let mut j: usize = 0;
        while j < n
            invariant
                n == deps@.len(),
                deps_in_range(deps@),
                level@.len() == n,
                snapshot@.len() == n,
                j <= n,
                r + count_none(snapshot@) <= n,
                placed_ok(deps@, snapshot@, r as int),
                waiting_ok(deps@, snapshot@, r as int),
                forall|m: int| j <= m < n ==> level@[m] == #[trigger] snapshot@[m],
                forall|m: int|
                    0 <= m < j ==> (#[trigger] level@[m] == snapshot@[m]) || (snapshot@[m] is None
                        && level@[m] == Some(r) && forall|k: int|
                        0 <= k < deps@[m]@.len() ==> (#[trigger] snapshot@[deps@[m]@[k] as int]) is Some),
                forall|m: int|
                    0 <= m < j && (#[trigger] level@[m]) is None ==> snapshot@[m] is None && exists|k: int|
                        0 <= k < deps@[m]@.len() && snapshot@[deps@[m]@[k] as int] is None,
                changed ==> count_none(level@) < count_none(snapshot@),
                !changed ==> level@ == snapshot@,
                count_none(level@) <= count_none(snapshot@),
            decreases n - j,
        {
            proof {
                assert forall|k: int| 0 <= k < deps@[j as int]@.len() implies (#[trigger] deps@[j as int]@[k]) < snapshot@.len() by {}
            }
            if snapshot[j].is_none() && all_placed(&snapshot, &deps[j]) {
                proof {
                    lemma_count_none_update(level@, j as int, r);
                }
                level.set(j, Some(r));
                changed = true;
            }
            j = j + 1;
        }
        if !changed {
            break;
        }
        proof {
            assert(r + 1 + count_none(level@) <= n);
            assert forall|m: int| 0 <= m < n && (#[trigger] level@[m]) is Some implies ({
                let l = level@[m]->Some_0;
                &&& l < r + 1
                &&& forall|k: int|
                    0 <= k < deps@[m]@.len() ==> level@[#[trigger] deps@[m]@[k] as int] is Some
                        && level@[deps@[m]@[k] as int]->Some_0 < l
                &&& l > 0 ==> exists|k: int|
                    0 <= k < deps@[m]@.len() && level@[deps@[m]@[k] as int] == Some((l - 1) as usize)
            }) by {
                let l = level@[m]->Some_0;
                if level@[m] == snapshot@[m] {
                    assert forall|k: int| 0 <= k < deps@[m]@.len() implies level@[#[trigger] deps@[m]@[k] as int] is Some
                        && level@[deps@[m]@[k] as int]->Some_0 < l by {
                        let i = deps@[m]@[k] as int;
                        assert(snapshot@[i] is Some);
                        if level@[i] != snapshot@[i] {
                            assert(snapshot@[i] is None);
                        }
                    }
                    if l > 0 {
                        let k = choose|k: int|
                            0 <= k < deps@[m]@.len() && snapshot@[deps@[m]@[k] as int] == Some((l - 1) as usize);
                        let i = deps@[m]@[k] as int;
                        if level@[i] != snapshot@[i] {
                            assert(snapshot@[i] is None);
                        }
                        assert(level@[deps@[m]@[k] as int] == Some((l - 1) as usize));
                    }
                } else {
                    assert(l == r);
                    assert forall|k: int| 0 <= k < deps@[m]@.len() implies level@[#[trigger] deps@[m]@[k] as int] is Some
                        && level@[deps@[m]@[k] as int]->Some_0 < l by {
                        let i = deps@[m]@[k] as int;
                        assert(snapshot@[i] is Some);
                        if level@[i] != snapshot@[i] {
                            assert(snapshot@[i] is None);
                        }
                    }
                    if l > 0 {
                        let k = choose|k: int|
                            0 <= k < deps@[m]@.len() && (snapshot@[deps@[m]@[k] as int] is None
                                || snapshot@[deps@[m]@[k] as int] == Some((r - 1) as usize));
                        let i = deps@[m]@[k] as int;
                        assert(snapshot@[i] is Some);
                        if level@[i] != snapshot@[i] {
                            assert(snapshot@[i] is None);
                        }
                        assert(level@[deps@[m]@[k] as int] == Some((l - 1) as usize));
                    }
                }
            }
            assert forall|m: int| 0 <= m < n && (#[trigger] level@[m]) is None implies exists|k: int|
                0 <= k < deps@[m]@.len() && (level@[deps@[m]@[k] as int] is None || level@[deps@[m]@[k] as int]
                    == Some(r)) by {
                let k = choose|k: int| 0 <= k < deps@[m]@.len() && snapshot@[deps@[m]@[k] as int] is None;
                let i = deps@[m]@[k] as int;
                if level@[i] != snapshot@[i] {
                    assert(level@[i] == Some(r));
                }
            }
        }
        r = r + 1;
    }
    // a round placed nothing: every task left waits on a task left
    let mut out: Vec<usize> = Vec::new();
    let mut j: usize = 0;
    while j < n
        invariant
            n == deps@.len(),
            level@.len() == n,
            j <= n,
            out@.len() == j,
            forall|m: int| 0 <= m < j ==> level@[m] == Some(#[trigger] out@[m]),
            deps_in_range(deps@),
            placed_ok(deps@, level@, r as int),
            stalled(deps@, level@),
        decreases n - j,
    {
        match level[j] {
            Some(l) => out.push(l),
            None => {
                proof {
                    lemma_stalled_witness(deps@, level@, j as int);
                }
                return Err(SchedulerError::CyclicWorkflow);
            },
        }
        j = j + 1;
    }
    proof {
        assert forall|m: int| 0 <= m < n && #[trigger] out@[m] > 0 implies exists|k: int|
            0 <= k < deps@[m]@.len() && out@[deps@[m]@[k] as int] == out@[m] - 1 by {
            let l = out@[m];
            assert(level@[m] == Some(l));
            let k = choose|k: int| 0 <= k < deps@[m]@.len() && level@[deps@[m]@[k] as int] == Some((l - 1) as usize);
            assert(level@[deps@[m]@[k] as int] == Some(out@[deps@[m]@[k] as int]));
        }
        assert forall|m: int, k: int| 0 <= m < n && 0 <= k < deps@[m]@.len() implies out@[#[trigger] deps@[m]@[k] as int]
            < out@[m] by {
            assert(level@[m] == Some(out@[m]));
            let i = deps@[m]@[k] as int;
            assert(level@[i] == Some(out@[i]));
        }
    }
    Ok(out)
}

/// Every task not placed waits on a task not placed.
pub open spec fn stalled(deps: Seq<Vec<usize>>, level: Seq<Option<usize>>) -> bool {
    forall|m: int|
        0 <= m < deps.len() && (#[trigger] level[m]) is None ==> exists|k: int|
            0 <= k < deps[m]@.len() && level[deps[m]@[k] as int] is None
}

proof fn lemma_stalled_witness(deps: Seq<Vec<usize>>, level: Seq<Option<usize>>, j: int)
    requires
        deps_in_range(deps),
        level.len() == deps.len(),
        stalled(deps, level),
        0 <= j < deps.len(),
        level[j] is None,
    ensures
        exists|s: Set<int>| cycle_witness(deps, s),
{
    let n = deps.len();
    let s = Set::new(|m: int| 0 <= m < n && level[m] is None);
    assert(s.contains(j));
    assert forall|m: int| #[trigger] s.contains(m) implies exists|k: int|
        0 <= k < deps[m]@.len() && s.contains(deps[m]@[k] as int) by {
        let k = choose|k: int| 0 <= k < deps[m]@.len() && level[deps[m]@[k] as int] is None;
        assert(deps[m]@[k] < n);
        assert(s.contains(deps[m]@[k] as int));
    }
    assert(cycle_witness(deps, s));
}

proof fn lemma_count_none_all(s: Seq<Option<usize>>)
    requires
        forall|m: int| 0 <= m < s.len() ==> (#[trigger] s[m]) is None,
    ensures
        count_none(s) == s.len(),
    decreases s.len(),
{
    if s.len() > 0 {
        lemma_count_none_all(s.drop_last());
    }
}

} // verus!

verus! {

/// `batches` groups the tasks by batch: batch `b` holds, in increasing
/// order, exactly the tasks whose level is `b`, and there is one batch per
/// level up to the highest.
pub open spec fn batched(level: Seq<usize>, batches: Seq<Vec<usize>>) -> bool {
    &&& forall|b: int, k: int|
        0 <= b < batches.len() && 0 <= k < batches[b]@.len() ==> (#[trigger] batches[b]@[k]) < level.len()
            && level[batches[b]@[k] as int] == b
    &&& forall|b: int, k1: int, k2: int|
        0 <= b < batches.len() && 0 <= k1 < k2 < batches[b]@.len() ==> #[trigger] batches[b]@[k1]
            < #[trigger] batches[b]@[k2]
    &&& forall|j: int|
        0 <= j < level.len() ==> #[trigger] level[j] < batches.len() && exists|k: int|
            0 <= k < batches[level[j] as int]@.len() && batches[level[j] as int]@[k] == j
    &&& forall|b: int| 0 <= b < batches.len() ==> (#[trigger] batches[b]@.len()) > 0
}

/// Every level above zero is right above a level that some task has.
pub open spec fn levels_dense(level: Seq<usize>) -> bool {
    forall|j: int|
        0 <= j < level.len() && #[trigger] level[j] > 0 ==> exists|m: int|
            0 <= m < level.len() && level[m] == level[j] - 1
}

proof fn lemma_levels_dense(level: Seq<usize>, m0: int, c: int)
    requires
        levels_dense(level),
        0 <= m0 < level.len(),
        0 <= c <= level[m0],
    ensures
        exists|m: int| 0 <= m < level.len() && level[m] == c,
    decreases level[m0] - c,
{
    if level[m0] > c {
        let m1 = choose|m: int| 0 <= m < level.len() && level[m] == level[m0] - 1;
        lemma_levels_dense(level, m1, c);
    }
}

/// Levels of a layering are dense and below the number of tasks.
pub proof fn lemma_layered_dense(deps: Seq<Vec<usize>>, level: Seq<usize>)
    requires
        deps_in_range(deps),
        layered(deps, level),
    ensures
        levels_dense(level),
        forall|j: int| 0 <= j < level.len() ==> (#[trigger] level[j]) < level.len(),
{
    assert forall|j: int| 0 <= j < level.len() && #[trigger] level[j] > 0 implies exists|m: int|
        0 <= m < level.len() && level[m] == level[j] - 1 by {
        let k = choose|k: int| 0 <= k < deps[j]@.len() && level[deps[j]@[k] as int] == level[j] - 1;
        assert(deps[j]@[k] < deps.len());
    }
    assert forall|j: int| 0 <= j < level.len() implies (#[trigger] level[j]) < level.len() by {
        lemma_level_below(deps, level, j);
    }
}

/// A task's level counts distinct tasks below it on a chain, so it is below
/// the number of tasks.
proof fn lemma_level_below(deps: Seq<Vec<usize>>, level: Seq<usize>, j: int)
    requires
        deps_in_range(deps),
        layered(deps, level),
        0 <= j < level.len(),
    ensures
        level[j] < level.len(),
{
    // the tasks of levels 0..=level[j] each contribute at least one task
    assert forall|l: int| 0 <= l <= level[j] implies #[trigger] level_taken(level, l) by {
        lemma_levels_dense_from(deps, level, j, l);
    }
    lemma_count_levels(level, level[j] as int);
}

proof fn lemma_levels_dense_from(deps: Seq<Vec<usize>>, level: Seq<usize>, j: int, l: int)
    requires
        deps_in_range(deps),
        layered(deps, level),
        0 <= j < level.len(),
        0 <= l <= level[j],
    ensures
        exists|m: int| 0 <= m < level.len() && level[m] <= level[j] && level[m] == l,
    decreases level[j] - l,
{
    if level[j] > l {
        let k = choose|k: int| 0 <= k < deps[j]@.len() && level[deps[j]@[k] as int] == level[j] - 1;
        let i = deps[j]@[k] as int;
        assert(deps[j]@[k] < deps.len());
        lemma_levels_dense_from(deps, level, i, l);
    }
}

/// Some task has level `l`.
pub open spec fn level_taken(level: Seq<usize>, l: int) -> bool {
    exists|m: int| 0 <= m < level.len() && level[m] == l
}

/// If every level from `0` to `top` is taken, there are more than `top` tasks.
proof fn lemma_count_levels(level: Seq<usize>, top: int)
    requires
        0 <= top,
        forall|l: int| 0 <= l <= top ==> #[trigger] level_taken(level, l),
    ensures
        top < level.len(),
{
    let f = |l: int| choose|m: int| 0 <= m < level.len() && level[m] == l;
    let dom = Set::new(|l: int| 0 <= l <= top);
    let img = dom.map(f);
    let all = Set::new(|m: int| 0 <= m < level.len());
    assert forall|l: int| dom.contains(l) implies 0 <= #[trigger] f(l) < level.len() && level[f(l)] == l by {
        assert(level_taken(level, l));
    }
    assert forall|m: int| img.contains(m) implies all.contains(m) by {
        let l = choose|l: int| dom.contains(l) && f(l) == m;
        assert(0 <= f(l) < level.len());
    }
    assert(dom =~= vstd::set_lib::set_int_range(0, top + 1));
    vstd::set_lib::lemma_int_range(0, top + 1);
    assert(all =~= vstd::set_lib::set_int_range(0, level.len() as int));
    vstd::set_lib::lemma_int_range(0, level.len() as int);
    assert forall|a: int, b: int| dom.contains(a) && dom.contains(b) && #[trigger] f(a) == #[trigger] f(b) implies a == b by {
        assert(level[f(a)] == a);
        assert(level[f(b)] == b);
    }
    vstd::set_lib::lemma_map_size(dom, img, f);
    vstd::set_lib::lemma_len_subset(img, all);
}

/// Groups tasks into batches by level.
pub fn batches_of(level: &Vec<usize>) -> (r: Vec<Vec<usize>>)
    requires
        forall|j: int| 0 <= j < level@.len() ==> (#[trigger] level@[j]) < level@.len(),
        levels_dense(level@),
    ensures
        batched(level@, r@),
{
    let n = level.len();
    let mut top: usize = 0;
    let mut j: usize = 0;
    while j < n
        invariant
            n == level@.len(),
            j <= n,
            top <= n,
            forall|m: int| 0 <= m < j ==> (#[trigger] level@[m]) < top,
            j > 0 ==> exists|m: int| 0 <= m < j && level@[m] + 1 == top,
            j == 0 ==> top == 0,
            forall|m: int| 0 <= m < level@.len() ==> (#[trigger] level@[m]) < level@.len(),
        decreases n - j,
    {
        if level[j] + 1 > top {
            top = level[j] + 1;
        }
        j = j + 1;
    }
    let mut out: Vec<Vec<usize>> = Vec::new();
    let mut b: usize = 0;
    while b < top
        invariant
            n == level@.len(),
            b <= top,
            out@.len() == b,
            forall|m: int| 0 <= m < n ==> (#[trigger] level@[m]) < top,
            n > 0 ==> exists|m: int| 0 <= m < n && level@[m] + 1 == top,
            n == 0 ==> top == 0,
            forall|c: int, k: int|
                0 <= c < b && 0 <= k < out@[c]@.len() ==> (#[trigger] out@[c]@[k]) < n && level@[out@[c]@[k] as int]
                    == c,
            forall|c: int, k1: int, k2: int|
                0 <= c < b && 0 <= k1 < k2 < out@[c]@.len() ==> #[trigger] out@[c]@[k1] < #[trigger] out@[c]@[k2],
            forall|m: int|
                0 <= m < n && (#[trigger] level@[m]) < b ==> exists|k: int|
                    0 <= k < out@[level@[m] as int]@.len() && out@[level@[m] as int]@[k] == m,
            forall|c: int| 0 <= c < b ==> (#[trigger] out@[c]@.len()) > 0,
            levels_dense(level@),
        decreases top - b,
    {
        let mut batch: Vec<usize> = Vec::new();
        let mut j: usize = 0;
        while j < n
            invariant
                n == level@.len(),
                j <= n,
                forall|k: int| 0 <= k < batch@.len() ==> (#[trigger] batch@[k]) < j && level@[batch@[k] as int] == b,
                forall|k1: int, k2: int| 0 <= k1 < k2 < batch@.len() ==> #[trigger] batch@[k1] < #[trigger] batch@[k2],
                forall|m: int| 0 <= m < j && (#[trigger] level@[m]) == b ==> exists|k: int|
                    0 <= k < batch@.len() && batch@[k] == m,
            decreases n - j,
        {
            let ghost prev = batch@;
            if level[j] == b {
                batch.push(j);
            }
            proof {
                assert forall|m: int| 0 <= m < j + 1 && (#[trigger] level@[m]) == b implies exists|k: int|
                    0 <= k < batch@.len() && batch@[k] == m by {
                    if m < j {
                        let k = choose|k: int| 0 <= k < prev.len() && prev[k] == m;
                        assert(batch@[k] == m);
                    } else {
                        assert(batch@[batch@.len() - 1] == m);
                    }
                }
            }
            j = j + 1;
        }
        proof {
            let m0 = choose|m: int| 0 <= m < n && level@[m] + 1 == top;
            lemma_levels_dense(level@, m0, b as int);
            let m = choose|m: int| 0 <= m < n && level@[m] == b;
            assert(exists|k: int| 0 <= k < batch@.len() && batch@[k] == m);
        }
        let ghost before = out@;
        let ghost bv = batch@;
        out.push(batch);
        proof {
            assert(out@[b as int]@ == bv);
            assert forall|m: int| 0 <= m < n && (#[trigger] level@[m]) < b + 1 implies exists|k: int|
                0 <= k < out@[level@[m] as int]@.len() && out@[level@[m] as int]@[k] == m by {
                if level@[m] < b {
                    assert(out@[level@[m] as int] == before[level@[m] as int]);
                } else {
                    let k = choose|k: int| 0 <= k < bv.len() && bv[k] == m;
                    assert(out@[level@[m] as int]@[k] == m);
                }
            }
        }
        b = b + 1;
    }
    out
}

} // verus!

verus! {

/// A plan: the batches already satisfied by stored receipts, the batches to
/// run, and how many batches were satisfied when there were any.
#[derive(Debug)]
pub struct TaskPlan {
    pub ran: Vec<Vec<usize>>,
    pub run: Vec<Vec<usize>>,
    pub resume_step: Option<usize>,
}

/// Every task of the batch is satisfied.
pub open spec fn batch_satisfied(batch: Seq<usize>, satisfied: Seq<bool>) -> bool {
    forall|k: int| 0 <= k < batch.len() ==> satisfied[#[trigger] batch[k] as int]
}

/// `plan` splits `batches` before the first batch with an unsatisfied task.
pub open spec fn split_at_first_unsatisfied(batches: Seq<Vec<usize>>, satisfied: Seq<bool>, plan: TaskPlan) -> bool {
    let f = plan.ran@.len() as int;
    &&& f <= batches.len()
    &&& plan.ran@ == batches.subrange(0, f)
    &&& plan.run@ == batches.subrange(f, batches.len() as int)
    &&& forall|b: int| 0 <= b < f ==> batch_satisfied(#[trigger] batches[b]@, satisfied)
    &&& f < batches.len() ==> !batch_satisfied(batches[f]@, satisfied)
    &&& plan.resume_step == if f > 0 { Some(f as usize) } else { None }
}

/// Splits batches into those satisfied by stored receipts and those to run.
pub fn split_plan(batches: Vec<Vec<usize>>, satisfied: &Vec<bool>) -> (plan: TaskPlan)
    requires
        forall|b: int, k: int|
            0 <= b < batches@.len() && 0 <= k < batches@[b]@.len() ==> (#[trigger] batches@[b]@[k])
                < satisfied@.len(),
    ensures
        split_at_first_unsatisfied(batches@, satisfied@, plan),
        (forall|j: int| 0 <= j < satisfied@.len() ==> #[trigger] satisfied@[j]) ==> plan.run@.len() == 0,
{
    let ghost all = batches@;
    let mut ran: Vec<Vec<usize>> = Vec::new();
    let mut rest = batches;
    let mut done = false;
    // take satisfied batches from the front
    let mut f: usize = 0;
    let n = rest.len();
    while f < n
        invariant
            n == all.len(),
            f <= n,
            rest@ == all,
            forall|b: int, k: int|
                0 <= b < all.len() && 0 <= k < all[b]@.len() ==> (#[trigger] all[b]@[k]) < satisfied@.len(),
            forall|b: int| 0 <= b < f ==> batch_satisfied(#[trigger] all[b]@, satisfied@),
        ensures
            f <= n,
            rest@ == all,
            forall|b: int| 0 <= b < f ==> batch_satisfied(#[trigger] all[b]@, satisfied@),
            f < n ==> !batch_satisfied(all[f as int]@, satisfied@),
        decreases n - f,
    {
        let batch = &rest[f];
        let mut k: usize = 0;
        let mut ok = true;
        while k < batch.len()
            invariant
                f < n,
                n == all.len(),
                k <= batch@.len(),
                batch@ == all[f as int]@,
                forall|m: int| 0 <= m < batch@.len() ==> (#[trigger] batch@[m]) < satisfied@.len(),
                ok == forall|m: int| 0 <= m < k ==> satisfied@[#[trigger] batch@[m] as int],
            decreases batch@.len() - k,
        {
            if !satisfied[batch[k]] {
                ok = false;
            }
            k = k + 1;
        }
        if !ok {
            break;
        }
        f = f + 1;
    }
    let run = rest.split_off(f);
    let mut ran = rest;
    assert(ran@ == all.subrange(0, f as int));
    assert(run@ == all.subrange(f as int, all.len() as int));
    let resume_step = if f > 0 { Some(f) } else { None };
    let plan = TaskPlan { ran, run, resume_step };
    proof {
        if forall|j: int| 0 <= j < satisfied@.len() ==> #[trigger] satisfied@[j] {
            if f < n {
                assert(batch_satisfied(all[f as int]@, satisfied@));
            }
        }
    }
    plan
}

/// Tasks depend only on tasks of strictly earlier batches.
pub proof fn lemma_batches_depend_on_earlier(deps: Seq<Vec<usize>>, level: Seq<usize>, batches: Seq<Vec<usize>>, b: int, k: int, d: int)
    requires
        deps_in_range(deps),
        layered(deps, level),
        batched(level, batches),
        0 <= b < batches.len(),
        0 <= k < batches[b]@.len(),
        0 <= d < deps[batches[b]@[k] as int]@.len(),
    ensures
        exists|b2: int, k2: int|
            0 <= b2 < b && 0 <= k2 < batches[b2]@.len() && batches[b2]@[k2] == deps[batches[b]@[k] as int]@[d],
{
    let j = batches[b]@[k] as int;
    let i = deps[j]@[d] as int;
    assert(deps[j]@[d] < deps.len());
    assert(level[i] < level[j]);
    let k2 = choose|k2: int| 0 <= k2 < batches[level[i] as int]@.len() && batches[level[i] as int]@[k2] == i;
}

} // verus!

verus! {

/// Task `j` depends on task `i` exactly when `j` awaits the result of
/// `i`'s instruction.
pub open spec fn deps_of(instructions: Seq<Cid>, awaits: Seq<Seq<Seq<u8>>>, deps: Seq<Vec<usize>>) -> bool {
    &&& deps.len() == instructions.len()
    &&& deps_in_range(deps)
    &&& forall|j: int, i: int|
        0 <= j < deps.len() && 0 <= i < deps.len() ==> (#[trigger] deps[j]@.contains(i as usize)
            <==> awaits[j].contains(#[trigger] instructions[i]@))
}

/// The identifiers each task awaits.
pub open spec fn awaits_view(a: Seq<Vec<Cid>>) -> Seq<Seq<Seq<u8>>> {
    Seq::new(a.len(), |j: int| cids_view(a[j]@))
}

/// The dependency graph: for each task, the tasks whose results it awaits.
pub fn dependencies(instructions: &Vec<Cid>, awaits: &Vec<Vec<Cid>>) -> (deps: Vec<Vec<usize>>)
    requires
        instructions@.len() == awaits@.len(),
    ensures
        deps_of(instructions@, awaits_view(awaits@), deps@),
{
    let n = instructions.len();
    let mut deps: Vec<Vec<usize>> = Vec::new();
    let mut j: usize = 0;
    while j < n
        invariant
            n == instructions@.len(),
            n == awaits@.len(),
            j <= n,
            deps@.len() == j,
            forall|a: int, k: int| 0 <= a < j && 0 <= k < deps@[a]@.len() ==> (#[trigger] deps@[a]@[k]) < n,
            forall|a: int, i: int|
                0 <= a < j && 0 <= i < n ==> (#[trigger] deps@[a]@.contains(i as usize)
                    <==> cids_view(awaits@[a]@).contains(#[trigger] instructions@[i]@)),
        decreases n - j,
    {
        let mut ds: Vec<usize> = Vec::new();
        let mut i: usize = 0;
        while i < n
            invariant
                n == instructions@.len(),
                n == awaits@.len(),
                j < n,
                i <= n,
                forall|k: int| 0 <= k < ds@.len() ==> (#[trigger] ds@[k]) < i,
                forall|m: int|
                    0 <= m < n ==> (#[trigger] ds@.contains(m as usize) <==> (m < i && cids_view(
                        awaits@[j as int]@,
                    ).contains(instructions@[m]@))),
            decreases n - i,
        {
            let ghost before = ds@;
            if crate::workflow_info::contains_cid(&awaits[j], &instructions[i]) {
                ds.push(i);
            }
            proof {
                assert forall|m: int| 0 <= m < n implies (#[trigger] ds@.contains(m as usize) <==> (m < i + 1
                    && cids_view(awaits@[j as int]@).contains(instructions@[m]@))) by {
                    if ds@.contains(m as usize) {
                        let k = choose|k: int| 0 <= k < ds@.len() && ds@[k] == m as usize;
                        if k < before.len() {
                            assert(before[k] == m as usize);
                            assert(before.contains(m as usize));
                        }
                    }
                    if m < i && cids_view(awaits@[j as int]@).contains(instructions@[m]@) {
                        assert(before.contains(m as usize));
                        let k = choose|k: int| 0 <= k < before.len() && before[k] == m as usize;
                        assert(ds@[k] == m as usize);
                    }
                    if m == i && cids_view(awaits@[j as int]@).contains(instructions@[m]@) {
                        assert(ds@[ds@.len() - 1] == m as usize);
                    }
                }
            }
            i = i + 1;
        }
        let ghost dv = ds@;
        deps.push(ds);
        proof {
            assert(deps@[j as int]@ == dv);
        }
        j = j + 1;
    }
    deps
}

/// The tasks whose instructions have stored receipts.
pub open spec fn satisfied_in(instructions: Seq<Cid>, store: ReceiptStore) -> Seq<bool> {
    Seq::new(instructions.len(), |j: int| store@.contains_key(instructions[j]@))
}

/// A workflow's execution graph and plan.
#[derive(Debug)]
pub struct Schedule {
    /// For each task, the tasks it awaits.
    pub deps: Vec<Vec<usize>>,
    /// For each task, its batch.
    pub level: Vec<usize>,
    /// The batches split into those already satisfied and those to run.
    pub plan: TaskPlan,
}

/// Plans a workflow given, for each task, its instruction's identifier and
/// the identifiers it awaits: layers the tasks into batches and splits them
/// against the receipts in `store`.
pub fn schedule(instructions: &Vec<Cid>, awaits: &Vec<Vec<Cid>>, store: &ReceiptStore) -> (r: Result<Schedule, SchedulerError>)
    requires
        instructions@.len() == awaits@.len(),
        store.wf(),
    ensures
        match r {
            Ok(s) => {
                &&& deps_of(instructions@, awaits_view(awaits@), s.deps@)
                &&& layered(s.deps@, s.level@)
                &&& batched(s.level@, s.plan.ran@ + s.plan.run@)
                &&& split_at_first_unsatisfied(s.plan.ran@ + s.plan.run@, satisfied_in(instructions@, *store), s.plan)
            },
            Err(_) => exists|d: Seq<Vec<usize>>, w: Set<int>|
                deps_of(instructions@, awaits_view(awaits@), d) && cycle_witness(d, w),
        },
{
    let deps = dependencies(instructions, awaits);
    let level = match layers(&deps) {
        Ok(l) => l,
        Err(e) => {
            return Err(e);
        },
    };
    proof {
        lemma_layered_dense(deps@, level@);
    }
    let batches = batches_of(&level);
    let mut satisfied: Vec<bool> = Vec::new();
    let mut j: usize = 0;
    while j < instructions.len()
        invariant
            store.wf(),
            j <= instructions@.len(),
            satisfied@.len() == j,
            forall|m: int| 0 <= m < j ==> #[trigger] satisfied@[m] == store@.contains_key(instructions@[m]@),
        decreases instructions@.len() - j,
    {
        satisfied.push(store.contains(&instructions[j]));
        j = j + 1;
    }
    assert(satisfied@ =~= satisfied_in(instructions@, *store));
    let ghost all = batches@;
    let plan = split_plan(batches, &satisfied);
    assert(plan.ran@ + plan.run@ =~= all);
    Ok(Schedule { deps, level, plan })
}

} // verus!
