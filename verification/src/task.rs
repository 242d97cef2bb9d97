//! Tasks and the task graph: what is responsible for all execution.
//!
//! A task takes the outputs of other tasks as its arguments. Sorting the graph
//! places every task in a stage after all the tasks it reads from, or reports
//! a cycle of tasks that read from each other.
use crate::meta_type::{MetaValueStore, StoreValueId};
use crate::stable_table::{StableKey, StableTable, StableTableKey, TableModel};
use crate::text::{decimal, join, push_decimal};
use vstd::prelude::*;
use vstd::seq_lib::*;
use vstd::set_lib::*;

verus! {

/// Key of a task instance in a `TaskGraph`.
#[derive(Clone, Copy, Debug, PartialEq, Eq, Hash, Structural)]
pub struct TaskHandle(pub StableTableKey);

impl StableKey for TaskHandle {
    open spec fn raw(&self) -> StableTableKey {
        self.0
    }

    open spec fn wrap(key: StableTableKey) -> Self {
        TaskHandle(key)
    }

    proof fn lemma_wrap_raw(key: StableTableKey) {
    }

    fn from_raw_key(key: StableTableKey) -> (r: Self) {
        TaskHandle(key)
    }

    fn raw_key(&self) -> (r: StableTableKey) {
        self.0
    }
}

/// An argument of a task: the output of another task, from this evaluation
/// or from the last one.
pub struct TaskDataArg {
    pub result_of: TaskHandle,
    pub last_frame: bool,
    /// If accessing a member of the value, raw offset so it can be a nested member
    pub byte_offset: usize,
    pub byte_size: usize,
}

/// A queue a task reads from.
pub struct TaskQueueArg {
    pub queue_id: (),
    /// If accessing a member of the value, raw offset so it can be a nested member
    pub byte_offset: usize,
    pub byte_size: usize,
}

/// A task placed in a graph: its arguments, its queues and where its output
/// is stored.
pub struct TaskInstance {
    pub args: Vec<TaskDataArg>,
    pub queues: Vec<TaskQueueArg>,
    pub data: StoreValueId,
    /// The stage the task runs in; sorting neither reads nor writes it.
    pub stage: usize,
    pub last_frame_data: Option<StoreValueId>,
}

/// The tasks of one stage; all of them can run in parallel.
pub struct TaskGraphStage {
    pub tasks: Vec<TaskHandle>,
}

pub struct TaskGraph {
    task_instances: StableTable<TaskHandle, TaskInstance>,
    stages: Vec<TaskGraphStage>,
    store: MetaValueStore,

}

#[derive(Debug)]
pub enum TaskGraphSortError {
    CycleDetected { cycle: Vec<TaskHandle> },
}

struct StackFrame {
    task: TaskHandle,
    arg_index: usize,
}

// ----- The dependency graph -----

/// The task in slot `i`.
pub open spec fn task_at(g: TableModel<TaskHandle, TaskInstance>, i: int) -> TaskInstance {
    g.entries[i].value.unwrap()
}

/// The number of arguments of the task in slot `i`.
pub open spec fn arg_count(g: TableModel<TaskHandle, TaskInstance>, i: int) -> int {
    task_at(g, i).args@.len() as int
}

/// The task whose output is argument `a` of the task in slot `i`.
pub open spec fn dep_of(g: TableModel<TaskHandle, TaskInstance>, i: int, a: int) -> TaskHandle {
    task_at(g, i).args@[a].result_of
}

/// The slot of `dep_of(g, i, a)`.
pub open spec fn dep_index(g: TableModel<TaskHandle, TaskInstance>, i: int, a: int) -> int {
    dep_of(g, i, a).0.index as int
}

/// Argument `a` of the task in slot `i` is read in the same evaluation. An
/// argument taken from the last evaluation is no dependency: a repeating
/// graph may feed a task its own earlier output.
pub open spec fn same_frame(g: TableModel<TaskHandle, TaskInstance>, i: int, a: int) -> bool {
    !task_at(g, i).args@[a].last_frame
}

/// The task in slot `i` reads the output of `h` in the same evaluation.
pub open spec fn depends_on(g: TableModel<TaskHandle, TaskInstance>, i: int, h: TaskHandle) -> bool {
    exists|a: int| 0 <= a < arg_count(g, i) && same_frame(g, i, a) && dep_of(g, i, a) == h
}

/// Every argument of every task names a task of the table by its current key.
pub open spec fn deps_closed(g: TableModel<TaskHandle, TaskInstance>) -> bool {
    &&& g.wf()
    &&& forall|i: int, a: int|
        0 <= i < g.entries.len() && 0 <= a < arg_count(g, i) ==> g.matches(
            (#[trigger] dep_of(g, i, a)).0,
        )
}

/// Step `k` of `c` goes from a task to a task it reads from.
pub open spec fn cycle_step(g: TableModel<TaskHandle, TaskInstance>, c: Seq<TaskHandle>, k: int) -> bool {
    depends_on(g, c[k].0.index as int, c[k + 1])
}

/// `c` is a closed walk along dependencies: each task reads from the next,
/// and the walk ends where it started.
pub open spec fn is_cycle(g: TableModel<TaskHandle, TaskInstance>, c: Seq<TaskHandle>) -> bool {
    &&& c.len() >= 2
    &&& c[0] == c.last()
    &&& forall|k: int| 0 <= k < c.len() ==> g.matches((#[trigger] c[k]).0)
    &&& forall|k: int| 0 <= k < c.len() - 1 ==> #[trigger] cycle_step(g, c, k)
}

/// The graph has no cycle.
pub open spec fn acyclic(g: TableModel<TaskHandle, TaskInstance>) -> bool {
    forall|c: Seq<TaskHandle>| !is_cycle(g, c)
}

/// `c` is a walk along same-evaluation reads: each task reads the next.
pub open spec fn is_walk(g: TableModel<TaskHandle, TaskInstance>, c: Seq<TaskHandle>) -> bool {
    &&& c.len() >= 1
    &&& forall|k: int| 0 <= k < c.len() ==> g.matches((#[trigger] c[k]).0)
    &&& forall|k: int| 0 <= k < c.len() - 1 ==> #[trigger] cycle_step(g, c, k)
}

/// `to` is `from` or a task that `from` reads, directly or through others.
pub open spec fn reachable(g: TableModel<TaskHandle, TaskInstance>, from: TaskHandle, to: TaskHandle) -> bool {
    exists|c: Seq<TaskHandle>| #[trigger] is_walk(g, c) && c[0] == from && c.last() == to
}

/// A task reachable from `from` that reads `to` makes `to` reachable.
proof fn lemma_reach_step(
    g: TableModel<TaskHandle, TaskInstance>,
    from: TaskHandle,
    h: TaskHandle,
    a: int,
)
    requires
        deps_closed(g),
        reachable(g, from, h),
        0 <= a < arg_count(g, h.0.index as int),
        same_frame(g, h.0.index as int, a),
    ensures
        reachable(g, from, dep_of(g, h.0.index as int, a)),
{
    let c = choose|c: Seq<TaskHandle>| #[trigger] is_walk(g, c) && c[0] == from && c.last() == h;
    let d = dep_of(g, h.0.index as int, a);
    let c2 = c.push(d);
    assert(g.matches(h.0));
    assert(g.matches(d.0));
    assert forall|k: int| 0 <= k < c2.len() implies g.matches((#[trigger] c2[k]).0) by {
        if k < c.len() {
            assert(c2[k] == c[k]);
        }
    }
    assert forall|k: int| 0 <= k < c2.len() - 1 implies #[trigger] cycle_step(g, c2, k) by {
        if k < c.len() - 1 {
            assert(cycle_step(g, c, k));
            assert(c2[k] == c[k] && c2[k + 1] == c[k + 1]);
        } else {
            assert(c2[k] == h);
            assert(c2[k + 1] == d);
        }
    }
    assert(is_walk(g, c2));
}

/// Every task is reachable from itself.
proof fn lemma_reach_self(g: TableModel<TaskHandle, TaskInstance>, h: TaskHandle)
    requires
        g.matches(h.0),
    ensures
        reachable(g, h, h),
{
    let c = seq![h];
    assert(is_walk(g, c));
}

/// The store handle a run reads for argument `arg`: the output of the task
/// it names, from this evaluation or, for a last-evaluation argument, the one
/// kept from the last; `None` when that task or that output is missing.
pub open spec fn arg_input(g: TableModel<TaskHandle, TaskInstance>, arg: TaskDataArg) -> Option<StoreValueId> {
    match g.lookup(arg.result_of.0) {
        None => None,
        Some(t) => if arg.last_frame {
            t.last_frame_data
        } else {
            Some(t.data)
        },
    }
}

// ----- Placements -----

/// The largest stage among the same-evaluation arguments among the first
/// `k` arguments of the task in slot `i` (0 when there are none).
pub open spec fn max_dep_stage(
    g: TableModel<TaskHandle, TaskInstance>,
    p: Seq<Option<usize>>,
    i: int,
    k: int,
) -> int
    decreases k,
{
    if k <= 0 {
        0
    } else if !same_frame(g, i, k - 1) {
        max_dep_stage(g, p, i, k - 1)
    } else {
        let s = p[dep_index(g, i, k - 1)].unwrap() as int;
        let m = max_dep_stage(g, p, i, k - 1);
        if s > m {
            s
        } else {
            m
        }
    }
}

/// The stage a task is placed in once all its arguments are placed: 0 for a
/// task without arguments and queues, else one past its latest
/// same-evaluation argument.
pub open spec fn stage_of(g: TableModel<TaskHandle, TaskInstance>, p: Seq<Option<usize>>, i: int) -> int {
    if task_at(g, i).args@.len() == 0 && task_at(g, i).queues@.len() == 0 {
        0
    } else {
        1 + max_dep_stage(g, p, i, arg_count(g, i))
    }
}

/// The slots that have a stage.
pub open spec fn placed_set(p: Seq<Option<usize>>) -> Set<int> {
    Set::new(|i: int| 0 <= i < p.len() && p[i] is Some)
}

/// All same-evaluation arguments of the task in slot `i` have a stage.
pub open spec fn all_deps_placed(g: TableModel<TaskHandle, TaskInstance>, p: Seq<Option<usize>>, i: int) -> bool {
    forall|a: int| 0 <= a < arg_count(g, i) && same_frame(g, i, a) ==> p[#[trigger] dep_index(g, i, a)] is Some
}

/// `p` gives stages to slots of `g` consistently: a placed task has all its
/// arguments placed and sits at `stage_of`.
pub open spec fn placement_ok(g: TableModel<TaskHandle, TaskInstance>, p: Seq<Option<usize>>) -> bool {
    &&& p.len() == g.entries.len()
    &&& forall|i: int|
        0 <= i < p.len() && #[trigger] p[i] is Some ==> {
            &&& all_deps_placed(g, p, i)
            &&& p[i].unwrap() == stage_of(g, p, i)
            &&& p[i].unwrap() <= placed_set(p).len()
        }
}

/// `p` keeps every stage of `q` and places the same slots or more.
pub open spec fn extends(p: Seq<Option<usize>>, q: Seq<Option<usize>>) -> bool {
    &&& p.len() == q.len()
    &&& forall|i: int| 0 <= i < q.len() && #[trigger] q[i] is Some ==> p[i] == q[i]
}

// ----- Lemmas on placements -----

proof fn lemma_placed_set_bound(p: Seq<Option<usize>>)
    ensures
        placed_set(p).finite(),
        placed_set(p).len() <= p.len(),
        placed_set(p).subset_of(set_int_range(0, p.len() as int)),
{
    lemma_int_range(0, p.len() as int);
    lemma_len_subset(placed_set(p), set_int_range(0, p.len() as int));
}

proof fn lemma_placed_set_insert(p: Seq<Option<usize>>, i: int, s: usize)
    requires
        0 <= i < p.len(),
        p[i] is None,
    ensures
        placed_set(p.update(i, Some(s))) == placed_set(p).insert(i),
        placed_set(p.update(i, Some(s))).len() == placed_set(p).len() + 1,
        placed_set(p).len() < p.len(),
{
    assert(placed_set(p.update(i, Some(s))) =~= placed_set(p).insert(i));
    lemma_placed_set_bound(p);
    lemma_placed_set_bound(p.update(i, Some(s)));
}

/// `max_dep_stage` only looks at the stages of the arguments.
proof fn lemma_max_dep_stage_frame(
    g: TableModel<TaskHandle, TaskInstance>,
    p: Seq<Option<usize>>,
    q: Seq<Option<usize>>,
    i: int,
    k: int,
)
    requires
        forall|a: int| 0 <= a < k && same_frame(g, i, a) ==> p[#[trigger] dep_index(g, i, a)] == q[dep_index(g, i, a)],
    ensures
        max_dep_stage(g, p, i, k) == max_dep_stage(g, q, i, k),
    decreases k,
{
    if k > 0 {
        if same_frame(g, i, k - 1) {
            assert(p[dep_index(g, i, k - 1)] == q[dep_index(g, i, k - 1)]);
        }
        lemma_max_dep_stage_frame(g, p, q, i, k - 1);
    }
}

/// `max_dep_stage` is at least every argument's stage and below any bound of
/// all of them.
proof fn lemma_max_dep_stage_bounds(
    g: TableModel<TaskHandle, TaskInstance>,
    p: Seq<Option<usize>>,
    i: int,
    k: int,
    bound: int,
)
    requires
        0 < bound,
        forall|a: int| 0 <= a < k && same_frame(g, i, a) ==> (p[#[trigger] dep_index(g, i, a)].unwrap() as int) < bound,
    ensures
        0 <= max_dep_stage(g, p, i, k) < bound || k <= 0,
        max_dep_stage(g, p, i, k) >= 0,
        forall|a: int| 0 <= a < k && same_frame(g, i, a) ==> p[#[trigger] dep_index(g, i, a)].unwrap() as int <= max_dep_stage(g, p, i, k),
    decreases k,
{
    if k > 0 {
        if same_frame(g, i, k - 1) {
            assert((p[dep_index(g, i, k - 1)].unwrap() as int) < bound);
        }
        lemma_max_dep_stage_bounds(g, p, i, k - 1, bound);
    }
}

/// Every argument of a placed task sits in an earlier stage.
pub proof fn lemma_stage_after_deps(g: TableModel<TaskHandle, TaskInstance>, p: Seq<Option<usize>>, i: int, a: int)
    requires
        deps_closed(g),
        placement_ok(g, p),
        0 <= i < p.len(),
        p[i] is Some,
        0 <= a < arg_count(g, i),
        same_frame(g, i, a),
    ensures
        p[dep_index(g, i, a)] is Some,
        p[dep_index(g, i, a)].unwrap() < p[i].unwrap(),
{
    let bound = placed_set(p).len() as int + 1;
    assert forall|b: int| 0 <= b < arg_count(g, i) && same_frame(g, i, b) implies (p[#[trigger] dep_index(g, i, b)].unwrap() as int) < bound by {
        assert(g.matches(dep_of(g, i, b).0));
        let d = dep_index(g, i, b);
        assert(p[d] is Some);
    }
    lemma_max_dep_stage_bounds(g, p, i, arg_count(g, i), bound);
    assert(p[dep_index(g, i, a)] is Some);
}


/// Placing one more task whose arguments are all placed, at its `stage_of`,
/// keeps a placement consistent.
proof fn lemma_place_one(g: TableModel<TaskHandle, TaskInstance>, p: Seq<Option<usize>>, i: int, s: usize)
    requires
        deps_closed(g),
        placement_ok(g, p),
        0 <= i < p.len(),
        p[i] is None,
        all_deps_placed(g, p, i),
        s as int == stage_of(g, p, i),
    ensures
        placement_ok(g, p.update(i, Some(s))),
        extends(p.update(i, Some(s)), p),
        placed_set(p.update(i, Some(s))).len() == placed_set(p).len() + 1,
{
    let q = p.update(i, Some(s));
    lemma_placed_set_insert(p, i, s);
    // The new stage is at most the new number of placed tasks.
    let bound = placed_set(p).len() as int + 1;
    assert forall|b: int| 0 <= b < arg_count(g, i) && same_frame(g, i, b) implies (p[#[trigger] dep_index(g, i, b)].unwrap() as int) < bound by {
        let d = dep_index(g, i, b);
        assert(p[d] is Some);
    }
    lemma_max_dep_stage_bounds(g, p, i, arg_count(g, i), bound);
    assert forall|j: int| 0 <= j < q.len() && #[trigger] q[j] is Some implies {
        &&& all_deps_placed(g, q, j)
        &&& q[j].unwrap() == stage_of(g, q, j)
        &&& q[j].unwrap() <= placed_set(q).len()
    } by {
        if j == i {
            assert forall|a: int| 0 <= a < arg_count(g, i) && same_frame(g, i, a) implies p[#[trigger] dep_index(g, i, a)]
                == q[dep_index(g, i, a)] by {
                assert(p[dep_index(g, i, a)] is Some);
            }
            lemma_max_dep_stage_frame(g, p, q, i, arg_count(g, i));
        } else {
            assert(p[j] is Some);
            assert forall|a: int| 0 <= a < arg_count(g, j) && same_frame(g, j, a) implies p[#[trigger] dep_index(g, j, a)]
                == q[dep_index(g, j, a)] by {
                assert(p[dep_index(g, j, a)] is Some);
            }
            lemma_max_dep_stage_frame(g, p, q, j, arg_count(g, j));
            assert forall|a: int| 0 <= a < arg_count(g, j) && same_frame(g, j, a) implies q[#[trigger] dep_index(g, j, a)] is Some by {
                assert(p[dep_index(g, j, a)] is Some);
            }
        }
    }
}

/// Along a walk that follows dependencies from a placed task, every task is
/// placed and the stages strictly decrease.
proof fn lemma_walk_stages(g: TableModel<TaskHandle, TaskInstance>, p: Seq<Option<usize>>, c: Seq<TaskHandle>, k: int)
    requires
        deps_closed(g),
        placement_ok(g, p),
        0 <= k < c.len(),
        forall|j: int| 0 <= j < c.len() ==> g.matches((#[trigger] c[j]).0),
        forall|j: int| 0 <= j < c.len() - 1 ==> #[trigger] cycle_step(g, c, j),
        p[c[0].0.index as int] is Some,
    ensures
        p[c[k].0.index as int] is Some,
        p[c[k].0.index as int].unwrap() + k <= p[c[0].0.index as int].unwrap(),
    decreases k,
{
    if k > 0 {
        lemma_walk_stages(g, p, c, k - 1);
        assert(cycle_step(g, c, k - 1));
        let i = c[k - 1].0.index as int;
        assert(g.matches(c[k - 1].0));
        let a = choose|a: int| 0 <= a < arg_count(g, i) && same_frame(g, i, a) && dep_of(g, i, a) == c[k];
        lemma_stage_after_deps(g, p, i, a);
    }
}

/// A consistent placement never places a task on a cycle.
pub proof fn lemma_cycle_unplaceable(g: TableModel<TaskHandle, TaskInstance>, p: Seq<Option<usize>>, c: Seq<TaskHandle>)
    requires
        deps_closed(g),
        placement_ok(g, p),
        is_cycle(g, c),
    ensures
        forall|k: int| 0 <= k < c.len() ==> p[(#[trigger] c[k]).0.index as int] is None,
{
    assert forall|k: int| 0 <= k < c.len() implies p[(#[trigger] c[k]).0.index as int] is None by {
        if p[c[k].0.index as int] is Some {
            // Rotate the cycle so that it starts at `c[k]`.
            let n = c.len() - 1;
            let r = Seq::new(c.len(), |j: int| c[(k + j) % n]);
            assert(r[0] == c[k]) by {
                if k == n {
                    vstd::arithmetic::div_mod::lemma_mod_self_0(n);
                    assert(c[0] == c[n]);
                } else {
                    vstd::arithmetic::div_mod::lemma_small_mod(k as nat, n as nat);
                }
            }
            assert forall|j: int| 0 <= j < r.len() implies g.matches((#[trigger] r[j]).0) by {
                assert(0 <= (k + j) % n < n);
            }
            assert forall|j: int| 0 <= j < r.len() - 1 implies #[trigger] cycle_step(g, r, j) by {
                let m = (k + j) % n;
                assert(0 <= m < n);
                assert(cycle_step(g, c, m));
                if m + 1 < n {
                    assert((k + j + 1) % n == m + 1) by {
                        vstd::arithmetic::div_mod::lemma_add_mod_noop(k + j, 1, n);
                        vstd::arithmetic::div_mod::lemma_small_mod(1, n as nat);
                        vstd::arithmetic::div_mod::lemma_small_mod((m + 1) as nat, n as nat);
                    }
                } else {
                    assert((k + j + 1) % n == 0) by {
                        vstd::arithmetic::div_mod::lemma_add_mod_noop(k + j, 1, n);
                        if n == 1 {
                            assert(1int % 1int == 0);
                        } else {
                            vstd::arithmetic::div_mod::lemma_small_mod(1, n as nat);
                            vstd::arithmetic::div_mod::lemma_mod_self_0(n);
                        }
                    }
                    assert(c[0] == c[n]);
                }
                assert(r[j + 1] == c[m + 1]);
            }
            lemma_walk_stages(g, p, r, n);
            assert(r[n] == r[0]) by {
                assert((k + n) % n == k % n) by {
                    vstd::arithmetic::div_mod::lemma_mod_add_multiples_vanish(k, n);
                }
                if k == n {
                    assert(k % n == 0) by {
                        vstd::arithmetic::div_mod::lemma_mod_self_0(n);
                    }
                    assert(c[0] == c[n]);
                } else {
                    vstd::arithmetic::div_mod::lemma_small_mod(k as nat, n as nat);
                }
            }
        }
    }
}

/// Two consistent placements give a task the same stage: the stage of a task
/// depends on the graph alone, not on the order in which tasks were placed.
pub proof fn lemma_stage_unique(
    g: TableModel<TaskHandle, TaskInstance>,
    p: Seq<Option<usize>>,
    q: Seq<Option<usize>>,
    i: int,
)
    requires
        deps_closed(g),
        placement_ok(g, p),
        placement_ok(g, q),
        0 <= i < p.len(),
        p[i] is Some,
        q[i] is Some,
    ensures
        p[i] == q[i],
    decreases p[i].unwrap(),
{
    assert forall|a: int| 0 <= a < arg_count(g, i) && same_frame(g, i, a) implies p[#[trigger] dep_index(g, i, a)] == q[dep_index(
        g,
        i,
        a,
    )] by {
        lemma_stage_after_deps(g, p, i, a);
        lemma_stage_after_deps(g, q, i, a);
        assert(g.matches(dep_of(g, i, a).0));
        lemma_stage_unique(g, p, q, dep_index(g, i, a));
    }
    lemma_max_dep_stage_frame(g, p, q, i, arg_count(g, i));
}

/// Distinct unplaced slots are at most as many as the slots without a stage.
proof fn lemma_unplaced_bound(p: Seq<Option<usize>>, idx: Seq<int>)
    requires
        idx.no_duplicates(),
        forall|k: int| 0 <= k < idx.len() ==> 0 <= #[trigger] idx[k] < p.len() && p[idx[k]] is None,
    ensures
        idx.len() + placed_set(p).len() <= p.len(),
{
    lemma_placed_set_bound(p);
    idx.unique_seq_to_set();
    let a = idx.to_set();
    let b = placed_set(p);
    let range = set_int_range(0, p.len() as int);
    lemma_int_range(0, p.len() as int);
    assert(a.subset_of(range));
    lemma_len_subset(a, range);
    assert(a.disjoint(b));
    lemma_set_disjoint_lens(a, b);
    assert((a + b).subset_of(range));
    lemma_len_subset(a + b, range);
}


// ----- Stages -----

/// The key slot `i` has now.
pub open spec fn handle_at(g: TableModel<TaskHandle, TaskInstance>, i: int) -> TaskHandle {
    TaskHandle(StableTableKey { index: i as usize, version: g.entries[i].version })
}

/// The current keys of all slots, in slot order.
pub open spec fn all_handles(g: TableModel<TaskHandle, TaskInstance>) -> Seq<TaskHandle> {
    Seq::new(g.entries.len(), |i: int| handle_at(g, i))
}

/// Every slot has a stage, consistently.
pub open spec fn full_placement(g: TableModel<TaskHandle, TaskInstance>, p: Seq<Option<usize>>) -> bool {
    &&& placement_ok(g, p)
    &&& forall|i: int| 0 <= i < p.len() ==> (#[trigger] p[i]) is Some
}

/// The largest stage of a placement (0 when it places nothing).
pub open spec fn max_stage(p: Seq<Option<usize>>) -> nat
    decreases p.len(),
{
    if p.len() == 0 {
        0
    } else {
        let m = max_stage(p.drop_last());
        let s = p.last().unwrap() as nat;
        if s > m {
            s
        } else {
            m
        }
    }
}

/// The number of stages: one past the largest stage, none for no tasks.
pub open spec fn stage_count(p: Seq<Option<usize>>) -> nat {
    if p.len() == 0 {
        0
    } else {
        max_stage(p) + 1
    }
}

/// The tasks placed at stage `s`.
pub open spec fn in_stage(p: Seq<Option<usize>>, s: int) -> spec_fn(TaskHandle) -> bool {
    |h: TaskHandle| p[h.0.index as int] == Some(s as usize)
}

/// The stages of a placement: stage `s` lists, in slot order, the current
/// keys of the tasks placed at `s`.
pub open spec fn stage_lists(g: TableModel<TaskHandle, TaskInstance>, p: Seq<Option<usize>>) -> Seq<Seq<TaskHandle>> {
    Seq::new(stage_count(p), |s: int| all_handles(g).filter(in_stage(p, s)))
}

proof fn lemma_max_stage_ge(p: Seq<Option<usize>>, i: int)
    requires
        0 <= i < p.len(),
    ensures
        p[i].unwrap() as nat <= max_stage(p),
    decreases p.len(),
{
    if i < p.len() - 1 {
        lemma_max_stage_ge(p.drop_last(), i);
        assert(p.drop_last()[i] == p[i]);
    }
}

proof fn lemma_filter_no_duplicates(s: Seq<TaskHandle>, pred: spec_fn(TaskHandle) -> bool)
    requires
        s.no_duplicates(),
    ensures
        s.filter(pred).no_duplicates(),
    decreases s.len(),
{
    reveal(Seq::filter);
    if s.len() > 0 {
        let rest = s.drop_last();
        assert(rest.no_duplicates());
        lemma_filter_no_duplicates(rest, pred);
        if pred(s.last()) {
            if rest.filter(pred).contains(s.last()) {
                rest.lemma_filter_contains_rev(pred, s.last());
                let j = choose|j: int| 0 <= j < rest.len() && rest[j] == s.last();
                assert(s[j] == s[s.len() - 1]);
            }
            assert(s.filter(pred) == rest.filter(pred).push(s.last()));
        } else {
            assert(s.filter(pred) == rest.filter(pred));
        }
    }
}

/// The stages of a full placement hold every task exactly once: in the stage
/// it is placed at, and there only once. Every same-evaluation argument of a
/// task sits in an earlier stage, so running the stages in order runs each
/// task after all the tasks it reads.
pub proof fn lemma_stage_lists(g: TableModel<TaskHandle, TaskInstance>, p: Seq<Option<usize>>, i: int, s: usize)
    requires
        deps_closed(g),
        full_placement(g, p),
        0 <= i < g.entries.len(),
    ensures
        p[i].unwrap() < stage_count(p),
        stage_lists(g, p).len() == stage_count(p),
        (s < stage_count(p) && stage_lists(g, p)[s as int].contains(handle_at(g, i))) <==> p[i] == Some(s),
        s < stage_count(p) ==> stage_lists(g, p)[s as int].no_duplicates(),
        forall|a: int|
            0 <= a < arg_count(g, i) && same_frame(g, i, a) ==> p[#[trigger] dep_index(g, i, a)].unwrap()
                < p[i].unwrap(),
{
    lemma_max_stage_ge(p, i);
    let all = all_handles(g);
    assert(all[i] == handle_at(g, i));
    if s < stage_count(p) {
        let pred = in_stage(p, s as int);
        broadcast use vstd::seq_lib::group_filter_ensures;

        if all.filter(pred).contains(handle_at(g, i)) {
            let j = choose|j: int| 0 <= j < all.filter(pred).len() && all.filter(pred)[j] == handle_at(g, i);
            assert(pred(all.filter(pred)[j]));
        }
        assert forall|j1: int, j2: int| 0 <= j1 < all.len() && 0 <= j2 < all.len() && j1 != j2 implies all[j1]
            != all[j2] by {
            assert(all[j1].0.index == j1 as usize);
            assert(all[j2].0.index == j2 as usize);
        }
        lemma_filter_no_duplicates(all, pred);
    }
    assert forall|a: int| 0 <= a < arg_count(g, i) && same_frame(g, i, a) implies p[#[trigger] dep_index(g, i, a)].unwrap()
        < p[i].unwrap() by {
        lemma_stage_after_deps(g, p, i, a);
    }
}

/// Adding a task whose same-evaluation arguments all name existing tasks
/// keeps a graph free of cycles: no existing task reads the new one, so no
/// cycle can pass through it. Graphs built by `new` and `add_task` can always
/// be sorted.
pub proof fn lemma_add_keeps_acyclic(g: TableModel<TaskHandle, TaskInstance>, inst: TaskInstance)
    requires
        deps_closed(g),
        g.unused.len() == 0,
        acyclic(g),
        forall|a: int|
            0 <= a < inst.args@.len() ==> g.matches((#[trigger] inst.args@[a]).result_of.0) || (
            inst.args@[a].last_frame && inst.args@[a].result_of.0 == g.next_key()),
    ensures
        acyclic(g.added(inst)),
{
    let g1 = g.added(inst);
    let n = g.entries.len() as int;
    assert forall|c: Seq<TaskHandle>| !is_cycle(g1, c) by {
        if is_cycle(g1, c) {
            if exists|k: int| 0 <= k < c.len() && (#[trigger] c[k]).0.index == n {
                let k = choose|k: int| 0 <= k < c.len() && (#[trigger] c[k]).0.index == n;
                let j = if k == 0 { c.len() - 2 } else { k - 1 };
                assert(c[j + 1].0.index == n);
                assert(cycle_step(g1, c, j));
                assert(g1.matches(c[j].0));
                let i = c[j].0.index as int;
                let a = choose|a: int| 0 <= a < arg_count(g1, i) && same_frame(g1, i, a) && dep_of(g1, i, a) == c[j + 1];
                if i < n {
                    assert(task_at(g1, i) == task_at(g, i));
                    assert(g.matches(dep_of(g, i, a).0));
                } else {
                    assert(task_at(g1, i) == inst);
                    assert(g.matches(inst.args@[a].result_of.0));
                }
            } else {
                assert forall|k: int| 0 <= k < c.len() implies g.matches((#[trigger] c[k]).0) by {
                    assert(g1.matches(c[k].0));
                }
                assert forall|k: int| 0 <= k < c.len() - 1 implies #[trigger] cycle_step(g, c, k) by {
                    assert(cycle_step(g1, c, k));
                    assert(g1.matches(c[k].0));
                    let i = c[k].0.index as int;
                    assert(task_at(g1, i) == task_at(g, i));
                    let a = choose|a: int| 0 <= a < arg_count(g1, i) && same_frame(g1, i, a) && dep_of(g1, i, a) == c[k + 1];
                    assert(dep_of(g, i, a) == c[k + 1]);
                }
                assert(is_cycle(g, c));
            }
        }
    }
}

// ----- Placement search -----

spec fn frame_index(f: StackFrame) -> int {
    f.task.0.index as int
}

/// How many leading arguments of frame `k` are known to be placed: all those
/// before the cursor for the top frame; for a lower frame, all but the one it
/// is waiting on.
spec fn done_args(s: Seq<StackFrame>, k: int) -> int {
    if k == s.len() - 1 {
        s[k].arg_index as int
    } else {
        s[k].arg_index - 1
    }
}

spec fn frame_done(g: TableModel<TaskHandle, TaskInstance>, p: Seq<Option<usize>>, s: Seq<StackFrame>, k: int) -> bool {
    forall|a: int| 0 <= a < done_args(s, k) && same_frame(g, frame_index(s[k]), a) ==> p[#[trigger] dep_index(g, frame_index(s[k]), a)] is Some
}

spec fn frame_link(g: TableModel<TaskHandle, TaskInstance>, s: Seq<StackFrame>, k: int) -> bool {
    &&& s[k].arg_index >= 1
    &&& same_frame(g, frame_index(s[k]), s[k].arg_index - 1)
    &&& dep_of(g, frame_index(s[k]), s[k].arg_index - 1) == s[k + 1].task
}

/// The search stack: a dependency path from `root`, with the tasks above the
/// bottom frame distinct and unplaced, and `v` recording their depths.
spec fn stack_ok(
    g: TableModel<TaskHandle, TaskInstance>,
    p: Seq<Option<usize>>,
    v: Seq<Option<usize>>,
    s: Seq<StackFrame>,
    root: TaskHandle,
) -> bool {
    &&& v.len() == g.entries.len()
    &&& s.len() > 0 ==> s[0].task == root
    &&& s.len() == 0 ==> p[root.0.index as int] is Some
    &&& forall|k: int|
        0 <= k < s.len() ==> g.matches((#[trigger] s[k]).task.0) && s[k].arg_index <= arg_count(
            g,
            frame_index(s[k]),
        )
    &&& forall|k: int| 0 <= k < s.len() - 1 ==> #[trigger] frame_link(g, s, k)
    &&& forall|k: int| 0 <= k < s.len() ==> #[trigger] frame_done(g, p, s, k)
    &&& forall|k: int| 1 <= k < s.len() ==> p[frame_index(#[trigger] s[k])] is None
    &&& forall|k1: int, k2: int|
        1 <= k1 < s.len() && 1 <= k2 < s.len() && k1 != k2 ==> frame_index(#[trigger] s[k1])
            != frame_index(#[trigger] s[k2])
    &&& forall|i: int|
        0 <= i < v.len() && (#[trigger] v[i]) is Some ==> 1 <= v[i].unwrap() < s.len() && frame_index(
            s[v[i].unwrap() as int],
        ) == i
    &&& forall|k: int| 1 <= k < s.len() ==> v[frame_index(#[trigger] s[k])] == Some(k as usize)
    &&& forall|k: int| 0 <= k < s.len() ==> reachable(g, root, (#[trigger] s[k]).task)
}

/// Two current keys of the same slot are the same key.
proof fn lemma_same_slot_same_handle(g: TableModel<TaskHandle, TaskInstance>, a: TaskHandle, b: TaskHandle)
    requires
        g.matches(a.0),
        g.matches(b.0),
        a.0.index == b.0.index,
    ensures
        a == b,
{
}

/// The stack above its bottom frame is not longer than the unplaced slots.
proof fn lemma_stack_bound(
    g: TableModel<TaskHandle, TaskInstance>,
    p: Seq<Option<usize>>,
    v: Seq<Option<usize>>,
    s: Seq<StackFrame>,
    root: TaskHandle,
)
    requires
        stack_ok(g, p, v, s, root),
        p.len() == g.entries.len(),
        s.len() >= 1,
    ensures
        s.len() - 1 + placed_set(p).len() <= p.len(),
{
    let idx = Seq::new((s.len() - 1) as nat, |k: int| frame_index(s[k + 1]));
    assert forall|k1: int, k2: int| 0 <= k1 < idx.len() && 0 <= k2 < idx.len() && k1 != k2 implies idx[k1]
        != idx[k2] by {
        assert(frame_index(s[k1 + 1]) != frame_index(s[k2 + 1]));
    }
    assert forall|k: int| 0 <= k < idx.len() implies 0 <= #[trigger] idx[k] < p.len() && p[idx[k]] is None by {
        assert(g.matches(s[k + 1].task.0));
        assert(p[frame_index(s[k + 1])] is None);
    }
    lemma_unplaced_bound(p, idx);
}


/// Popping the top frame once its task is placed keeps the stack invariant.
proof fn lemma_pop_placed(
    g: TableModel<TaskHandle, TaskInstance>,
    p0: Seq<Option<usize>>,
    p1: Seq<Option<usize>>,
    v: Seq<Option<usize>>,
    s: Seq<StackFrame>,
    root: TaskHandle,
)
    requires
        deps_closed(g),
        stack_ok(g, p0, v, s, root),
        s.len() >= 1,
        p0.len() == g.entries.len(),
        extends(p1, p0),
        p1[frame_index(s.last())] is Some,
        forall|i: int| 0 <= i < p0.len() && i != frame_index(s.last()) ==> p1[i] == p0[i],
    ensures
        stack_ok(g, p1, v.update(frame_index(s.last()), None), s.drop_last(), root),
{
    let top = s.len() - 1;
    let ci = frame_index(s[top]);
    let s1 = s.drop_last();
    let v1 = v.update(ci, None);
    assert(g.matches(s[top].task.0));
    if top >= 1 {
        assert(p0[ci] is None);
    }
    assert forall|k: int| 0 <= k < s1.len() implies #[trigger] frame_done(g, p1, s1, k) by {
        assert(frame_done(g, p0, s, k));
        assert(s1[k] == s[k]);
        assert forall|a: int| 0 <= a < done_args(s1, k) && same_frame(g, frame_index(s1[k]), a) implies p1[#[trigger] dep_index(g, frame_index(s1[k]), a)] is Some by {
            if k == s1.len() - 1 && a == done_args(s1, k) - 1 {
                assert(frame_link(g, s, k));
                assert(dep_index(g, frame_index(s[k]), a) == ci);
            } else {
                assert(g.matches(s[k].task.0));
                assert(g.matches(dep_of(g, frame_index(s[k]), a).0));
                assert(p0[dep_index(g, frame_index(s[k]), a)] is Some);
            }
        }
    }
    assert forall|k: int| 1 <= k < s1.len() implies p1[frame_index(#[trigger] s1[k])] is None by {
        assert(frame_index(s[k]) != frame_index(s[top]));
        assert(p0[frame_index(s[k])] is None);
    }
    assert forall|k: int| 0 <= k < s1.len() - 1 implies #[trigger] frame_link(g, s1, k) by {
        assert(frame_link(g, s, k));
    }
    assert forall|i: int| 0 <= i < v1.len() && (#[trigger] v1[i]) is Some implies 1 <= v1[i].unwrap() < s1.len()
        && frame_index(s1[v1[i].unwrap() as int]) == i by {
        assert(v[i] is Some);
    }
    assert forall|k: int| 1 <= k < s1.len() implies v1[frame_index(#[trigger] s1[k])] == Some(k as usize) by {
        assert(frame_index(s[k]) != frame_index(s[top]));
        assert(v[frame_index(s[k])] == Some(k as usize));
    }
    assert forall|k1: int, k2: int|
        1 <= k1 < s1.len() && 1 <= k2 < s1.len() && k1 != k2 implies frame_index(#[trigger] s1[k1])
            != frame_index(#[trigger] s1[k2]) by {
        assert(frame_index(s[k1]) != frame_index(s[k2]));
    }
    assert forall|k: int|
        0 <= k < s1.len() implies g.matches((#[trigger] s1[k]).task.0) && s1[k].arg_index <= arg_count(
        g,
        frame_index(s1[k]),
    ) by {
        assert(g.matches(s[k].task.0));
    }
}

/// Pushing the first unplaced argument of the top task keeps the stack
/// invariant when that argument is not on the stack.
proof fn lemma_push_dep(
    g: TableModel<TaskHandle, TaskInstance>,
    p: Seq<Option<usize>>,
    v: Seq<Option<usize>>,
    s: Seq<StackFrame>,
    root: TaskHandle,
    k: usize,
    depth: usize,
)
    requires
        deps_closed(g),
        stack_ok(g, p, v, s, root),
        s.len() >= 1,
        depth == s.len(),
        k < usize::MAX,
        p.len() == g.entries.len(),
        s.last().arg_index <= k < arg_count(g, frame_index(s.last())),
        forall|a: int| s.last().arg_index <= a < k && same_frame(g, frame_index(s.last()), a) ==> p[#[trigger] dep_index(g, frame_index(s.last()), a)] is Some,
        same_frame(g, frame_index(s.last()), k as int),
        p[dep_index(g, frame_index(s.last()), k as int)] is None,
        v[dep_index(g, frame_index(s.last()), k as int)] is None,
    ensures
        ({
            let top = s.len() - 1;
            let dep = dep_of(g, frame_index(s[top]), k as int);
            let s1 = s.update(top, StackFrame { task: s[top].task, arg_index: (k + 1) as usize }).push(
                StackFrame { task: dep, arg_index: 0 },
            );
            let v1 = v.update(dep.0.index as int, Some(depth));
            stack_ok(g, p, v1, s1, root)
        }),
{
    let top = s.len() - 1;
    let ci = frame_index(s[top]);
    let dep = dep_of(g, ci, k as int);
    let di = dep.0.index as int;
    let s1 = s.update(top, StackFrame { task: s[top].task, arg_index: (k + 1) as usize }).push(
        StackFrame { task: dep, arg_index: 0 },
    );
    let v1 = v.update(di, Some(depth));
    assert(g.matches(s[top].task.0));
    assert(g.matches(dep.0));
    assert forall|j: int| 0 <= j < s1.len() implies #[trigger] frame_done(g, p, s1, j) by {
        if j < top {
            assert(frame_done(g, p, s, j));
            assert forall|a: int| 0 <= a < done_args(s1, j) && same_frame(g, frame_index(s1[j]), a) implies p[#[trigger] dep_index(g, frame_index(s1[j]), a)] is Some by {
                assert(p[dep_index(g, frame_index(s[j]), a)] is Some);
            }
        } else if j == top {
            assert(frame_done(g, p, s, j));
            assert forall|a: int| 0 <= a < done_args(s1, j) && same_frame(g, frame_index(s1[j]), a) implies p[#[trigger] dep_index(g, frame_index(s1[j]), a)] is Some by {
                if a < s[top].arg_index {
                    assert(p[dep_index(g, ci, a)] is Some);
                } else {
                    assert(p[dep_index(g, ci, a)] is Some);
                }
            }
        }
    }
    assert forall|j: int| 0 <= j < s1.len() - 1 implies #[trigger] frame_link(g, s1, j) by {
        if j < top {
            assert(frame_link(g, s, j));
            assert(s1[j] == s[j]);
            assert(s1[j + 1].task == s[j + 1].task);
        } else {
            assert(j == top);
            assert(s1[j + 1].task == dep);
        }
    }
    assert forall|j: int| 1 <= j < s1.len() implies p[frame_index(#[trigger] s1[j])] is None by {
        if j < s.len() {
            assert(p[frame_index(s[j])] is None);
        }
    }
    assert forall|j1: int, j2: int|
        1 <= j1 < s1.len() && 1 <= j2 < s1.len() && j1 != j2 implies frame_index(#[trigger] s1[j1])
            != frame_index(#[trigger] s1[j2]) by {
        if j1 < s.len() && j2 < s.len() {
            assert(frame_index(s[j1]) != frame_index(s[j2]));
        } else if j1 < s.len() {
            assert(v[frame_index(s[j1])] == Some(j1 as usize));
        } else {
            assert(v[frame_index(s[j2])] == Some(j2 as usize));
        }
    }
    assert forall|i: int| 0 <= i < v1.len() && (#[trigger] v1[i]) is Some implies 1 <= v1[i].unwrap() < s1.len()
        && frame_index(s1[v1[i].unwrap() as int]) == i by {
        if i != di {
            assert(v[i] is Some);
        }
    }
    assert forall|j: int| 1 <= j < s1.len() implies v1[frame_index(#[trigger] s1[j])] == Some(j as usize) by {
        if j < s.len() {
            assert(v[frame_index(s[j])] == Some(j as usize));
        }
    }
    assert forall|j: int|
        0 <= j < s1.len() implies g.matches((#[trigger] s1[j]).task.0) && s1[j].arg_index <= arg_count(
        g,
        frame_index(s1[j]),
    ) by {
        if j < s.len() {
            assert(g.matches(s[j].task.0));
        }
    }
    assert forall|j: int| 0 <= j < s1.len() implies reachable(g, root, (#[trigger] s1[j]).task) by {
        if j < s.len() {
            assert(s1[j].task == s[j].task);
        } else {
            assert(s1[j].task == dep);
            lemma_reach_step(g, root, s[top].task, k as int);
        }
    }
}

/// When the argument about to be pushed is already on the stack, the frames
/// from its depth up, followed by the argument, form a cycle.
proof fn lemma_cycle_found(
    g: TableModel<TaskHandle, TaskInstance>,
    p: Seq<Option<usize>>,
    v: Seq<Option<usize>>,
    s: Seq<StackFrame>,
    root: TaskHandle,
    k: usize,
    d: usize,
    c: Seq<TaskHandle>,
)
    requires
        deps_closed(g),
        stack_ok(g, p, v, s, root),
        s.len() >= 1,
        0 <= k < arg_count(g, frame_index(s.last())),
        same_frame(g, frame_index(s.last()), k as int),
        v[dep_index(g, frame_index(s.last()), k as int)] == Some(d),
        c.len() == s.len() - d + 1,
        forall|j: int| d <= j < s.len() ==> c[j - d] == (#[trigger] s[j]).task,
        c.last() == dep_of(g, frame_index(s.last()), k as int),
    ensures
        is_cycle(g, c),
        reachable(g, root, c[0]),
{
    let top = s.len() - 1;
    let ci = frame_index(s[top]);
    let dep = dep_of(g, ci, k as int);
    let di = dep.0.index as int;
    assert(g.matches(s[top].task.0));
    assert(g.matches(dep.0));
    assert(1 <= d < s.len());
    assert(c[d - d] == s[d as int].task);
    assert(g.matches(s[d as int].task.0));
    lemma_same_slot_same_handle(g, s[d as int].task, dep);
    assert forall|m: int| 0 <= m < c.len() implies g.matches((#[trigger] c[m]).0) by {
        if m < s.len() - d {
            assert(c[(d + m) - d] == s[d + m].task);
            assert(g.matches(s[d + m].task.0));
        }
    }
    assert forall|m: int| 0 <= m < c.len() - 1 implies #[trigger] cycle_step(g, c, m) by {
        assert(c[(d + m) - d] == s[d + m].task);
        if m < c.len() - 2 {
            assert(c[(d + m + 1) - d] == s[d + m + 1].task);
            assert(frame_link(g, s, d + m));
            let a = s[d + m].arg_index - 1;
            assert(dep_of(g, frame_index(s[d + m]), a) == c[m + 1]);
        } else {
            assert(d + m == top);
            assert(dep_of(g, ci, k as int) == c[m + 1]);
        }
    }
}

impl TaskGraph {
    /// Places `task` and, first, every task it transitively reads in the same
    /// evaluation that is not placed yet, walking dependencies depth first.
    /// Only tasks reachable from `task` gain a stage, and on success all of
    /// them have one. Fails with a cycle through a reachable task when the
    /// walk meets a task it is still resolving. `placed_instance_stages` must
    /// be a consistent placement, as `sort` keeps it.
    pub fn resolve_node_placement(
        task: TaskHandle,
        tasks: &StableTable<TaskHandle, TaskInstance>,
        placed_instance_stages: &mut Vec<Option<usize>>,
    ) -> (r: Result<usize, TaskGraphSortError>)
        requires
            deps_closed(tasks@),
            tasks@.matches(task.0),
            placement_ok(tasks@, old(placed_instance_stages)@),
        ensures
            placement_ok(tasks@, final(placed_instance_stages)@),
            extends(final(placed_instance_stages)@, old(placed_instance_stages)@),
            r matches Ok(stage) ==> final(placed_instance_stages)@[task.0.index as int] == Some(stage),
            r is Ok ==> forall|h: TaskHandle|
                #[trigger] reachable(tasks@, task, h) ==> final(placed_instance_stages)@[h.0.index as int] is Some,
            r matches Err(TaskGraphSortError::CycleDetected { cycle }) ==> is_cycle(tasks@, cycle@) && reachable(
                tasks@,
                task,
                cycle@[0],
            ),
            forall|i: int|
                0 <= i < old(placed_instance_stages)@.len() && old(placed_instance_stages)@[i] is None
                    && (#[trigger] final(placed_instance_stages)@[i]) is Some ==> reachable(tasks@, task, handle_at(tasks@, i)),
    {
        let ghost g = tasks@;
        let n = tasks.entries.len();
        let mut visiting: Vec<Option<usize>> = Vec::new();
        while visiting.len() < n
            invariant
                n == g.entries.len(),
                visiting@.len() <= n,
                forall|i: int| 0 <= i < visiting@.len() ==> (#[trigger] visiting@[i]) is None,
            decreases n - visiting@.len(),
        {
            visiting.push(None);
        }
        let mut stack: Vec<StackFrame> = Vec::new();
        stack.push(StackFrame { task, arg_index: 0 });
        proof {
            lemma_placed_set_bound(placed_instance_stages@);
            lemma_reach_self(g, task);
            assert(stack@[0].task == task);
        }
        while stack.len() > 0
            invariant
                g == tasks@,
                n == g.entries.len(),
                deps_closed(g),
                g.matches(task.0),
                placement_ok(g, placed_instance_stages@),
                extends(placed_instance_stages@, old(placed_instance_stages)@),
                stack_ok(g, placed_instance_stages@, visiting@, stack@, task),
                forall|i: int|
                    0 <= i < old(placed_instance_stages)@.len() && old(placed_instance_stages)@[i] is None
                        && (#[trigger] placed_instance_stages@[i]) is Some ==> reachable(g, task, handle_at(g, i)),
                stack@.len() <= n + 1,
                placed_set(placed_instance_stages@).len() <= n,
            decreases
                n - placed_set(placed_instance_stages@).len() + (if stack@.len() > 0 { 1int } else { 0int }),
                n + 1 - stack@.len(),
        {
            let ghost p0 = placed_instance_stages@;
            let ghost s0 = stack@;
            let top = stack.len() - 1;
            let cur = stack[top].task;
            let arg_index = stack[top].arg_index;
            let ci = cur.0.index;
            let instance = tasks.index(cur);
            assert(g.matches(s0[top as int].task.0));
            if placed_instance_stages[ci].is_some() {
                proof {
                    lemma_pop_placed(g, p0, p0, visiting@, s0, task);
                }
                visiting.set(ci, None);
                stack.pop();
                proof {
                    assert(stack@ == s0.drop_last());
                }
                continue;
            }
            if instance.args.len() == 0 && instance.queues.len() == 0 {
                proof {
                    lemma_place_one(g, p0, ci as int, 0);
                    lemma_placed_set_bound(p0.update(ci as int, Some(0usize)));
                    lemma_pop_placed(g, p0, p0.update(ci as int, Some(0usize)), visiting@, s0, task);
                }
                placed_instance_stages.set(ci, Some(0));
                visiting.set(ci, None);
                stack.pop();
                proof {
                    assert(stack@ == s0.drop_last());
                    assert(reachable(g, task, s0[top as int].task));
                    assert(s0[top as int].task == handle_at(g, ci as int));
                }
                continue;
            }
            // The first argument at or after the cursor that is not placed yet.
            let mut k = arg_index;
            #[verifier::loop_isolation(false)]
            while k < instance.args.len()
                invariant
                    instance == task_at(g, ci as int),
                    arg_index <= k <= instance.args@.len(),
                    forall|a: int| arg_index <= a < k && same_frame(g, ci as int, a) ==> placed_instance_stages@[#[trigger] dep_index(g, ci as int, a)] is Some,
                decreases instance.args@.len() - k,
            {
                proof {
                    assert(g.matches(dep_of(g, ci as int, k as int).0));
                }
                if !instance.args[k].last_frame && placed_instance_stages[instance.args[k].result_of.0.index].is_none() {
                    break;
                }
                k = k + 1;
            }
            if k < instance.args.len() {
                let dep_task = instance.args[k].result_of;
                let di = dep_task.0.index;
                stack.set(top, StackFrame { task: cur, arg_index: k + 1 });
                proof {
                    assert(g.matches(dep_of(g, ci as int, k as int).0));
                }
                if let Some(cycle_depth) = visiting[di] {
                    proof {
                        assert(visiting@[di as int] == Some(cycle_depth));
                    }
                    // The dependency is being resolved further down the stack:
                    // the frames from there up, and the dependency again, form
                    // the cycle.
                    let mut cycle: Vec<TaskHandle> = Vec::new();
                    let mut j = cycle_depth;
                    while j < stack.len()
                        invariant
                            cycle_depth <= j <= stack@.len(),
                            stack@.len() == s0.len(),
                            forall|m: int| 0 <= m < s0.len() ==> (#[trigger] stack@[m]).task == s0[m].task,
                            cycle@.len() == j - cycle_depth,
                            forall|m: int| cycle_depth <= m < j ==> cycle@[m - cycle_depth] == (#[trigger] s0[m]).task,
                        decreases stack@.len() - j,
                    {
                        cycle.push(stack[j].task);
                        j = j + 1;
                    }
                    cycle.push(dep_task);
                    proof {
                        lemma_cycle_found(g, p0, visiting@, s0, task, k, cycle_depth, cycle@);
                    }
                    return Err(TaskGraphSortError::CycleDetected { cycle });
                }
                let depth = stack.len();
                proof {
                    lemma_push_dep(g, p0, visiting@, s0, task, k, depth);
                }
                visiting.set(di, Some(depth));
                stack.push(StackFrame { task: dep_task, arg_index: 0 });
                proof {
                    lemma_stack_bound(g, p0, visiting@, stack@, task);
                }
            } else {
                proof {
                    assert(frame_done(g, p0, s0, top as int));
                    assert forall|a: int| 0 <= a < arg_count(g, ci as int) && same_frame(g, ci as int, a) implies p0[#[trigger] dep_index(g, ci as int, a)] is Some by {
                        if a >= arg_index {
                            assert(p0[dep_index(g, ci as int, a)] is Some);
                        }
                    }
                    assert(all_deps_placed(g, p0, ci as int));
                }
                let mut latest: usize = 0;
                let mut a: usize = 0;
                #[verifier::loop_isolation(false)]
                while a < instance.args.len()
                    invariant
                        instance == task_at(g, ci as int),
                        a <= instance.args@.len(),
                        latest as int == max_dep_stage(g, placed_instance_stages@, ci as int, a as int),
                    decreases instance.args@.len() - a,
                {
                    if !instance.args[a].last_frame {
                        proof {
                            assert(g.matches(dep_of(g, ci as int, a as int).0));
                            assert(p0[dep_index(g, ci as int, a as int)] is Some);
                        }
                        let stage = placed_instance_stages[instance.args[a].result_of.0.index].unwrap();
                        if stage > latest {
                            latest = stage;
                        }
                    }
                    a = a + 1;
                }
                proof {
                    let bound = placed_set(p0).len() as int + 1;
                    assert forall|b: int| 0 <= b < arg_count(g, ci as int) && same_frame(g, ci as int, b) implies (p0[#[trigger] dep_index(g, ci as int, b)].unwrap() as int) < bound by {
                        assert(p0[dep_index(g, ci as int, b)] is Some);
                    }
                    lemma_max_dep_stage_bounds(g, p0, ci as int, arg_count(g, ci as int), bound);
                    lemma_placed_set_insert(p0, ci as int, 0);
                }
                let placement = latest + 1;
                proof {
                    lemma_place_one(g, p0, ci as int, placement);
                    lemma_placed_set_bound(p0.update(ci as int, Some(placement)));
                    lemma_pop_placed(g, p0, p0.update(ci as int, Some(placement)), visiting@, s0, task);
                }
                placed_instance_stages.set(ci, Some(placement));
                visiting.set(ci, None);
                stack.pop();
                proof {
                    assert(stack@ == s0.drop_last());
                    assert(reachable(g, task, s0[top as int].task));
                    assert(s0[top as int].task == handle_at(g, ci as int));
                }
            }
        }
        proof {
            let p = placed_instance_stages@;
            assert forall|h: TaskHandle| #[trigger] reachable(g, task, h) implies p[h.0.index as int] is Some by {
                let c = choose|c: Seq<TaskHandle>| #[trigger] is_walk(g, c) && c[0] == task && c.last() == h;
                lemma_walk_stages(g, p, c, c.len() - 1);
            }
        }
        match placed_instance_stages[task.0.index] {
            Some(stage) => Ok(stage),
            None => Err(TaskGraphSortError::CycleDetected { cycle: vec![task] }),
        }
    }
}

impl TaskGraph {
    /// The task table: every task instance, by handle.
    pub closed spec fn tasks(&self) -> TableModel<TaskHandle, TaskInstance> {
        self.task_instances@
    }

    /// Every argument of every task names a task of this graph.
    pub closed spec fn wf(&self) -> bool {
        &&& deps_closed(self.task_instances@)
        &&& self.task_instances@.unused.len() == 0
    }

    /// The stages, each as its list of task keys.
    pub closed spec fn stages(&self) -> Seq<Seq<TaskHandle>> {
        self.stages@.map_values(|st: TaskGraphStage| st.tasks@)
    }

    /// The stages, as the last successful `sort` filled them.
    pub fn get_stages(&self) -> (r: &Vec<TaskGraphStage>)
        ensures
            r@.map_values(|st: TaskGraphStage| st.tasks@) == self.stages(),
    {
        &self.stages
    }

    /// The current keys of the tasks placed at stage `s`, in slot order.
    fn stage_tasks(tasks: &StableTable<TaskHandle, TaskInstance>, placed: &Vec<Option<usize>>, s: usize) -> (r: Vec<
        TaskHandle,
    >)
        requires
            placed@.len() == tasks@.entries.len(),
        ensures
            r@ == all_handles(tasks@).filter(in_stage(placed@, s as int)),
    {
        let ghost g = tasks@;
        let ghost all = all_handles(g);
        let ghost pred = in_stage(placed@, s as int);
        let mut list: Vec<TaskHandle> = Vec::new();
        let mut i: usize = 0;
        while i < placed.len()
            invariant
                placed@.len() == g.entries.len(),
                g == tasks@,
                all == all_handles(g),
                pred == in_stage(placed@, s as int),
                i <= placed@.len(),
                list@ == all.take(i as int).filter(pred),
            decreases placed@.len() - i,
        {
            proof {
                reveal_with_fuel(Seq::<_>::filter, 1);
                assert(all.take(i + 1).drop_last() =~= all.take(i as int));
                assert(all.take(i + 1).last() == handle_at(g, i as int));
            }
            let here = match placed[i] {
                Some(t) => t == s,
                None => false,
            };
            if here {
                let h = TaskHandle(StableTableKey { index: i, version: tasks.entries[i].version });
                list.push(h);
            }
            i = i + 1;
        }
        proof {
            assert(all.take(placed@.len() as int) =~= all);
        }
        list
    }

    /// The stages of a placement that places every task.
    fn stages_of(tasks: &StableTable<TaskHandle, TaskInstance>, placed: &Vec<Option<usize>>) -> (r: Vec<TaskGraphStage>)
        requires
            placed@.len() == tasks@.entries.len(),
            forall|i: int| 0 <= i < placed@.len() ==> (#[trigger] placed@[i]) is Some,
        ensures
            r@.map_values(|st: TaskGraphStage| st.tasks@) == stage_lists(tasks@, placed@),
    {
        let ghost g = tasks@;
        let ghost p = placed@;
        let mut stages: Vec<TaskGraphStage> = Vec::new();
        let n = placed.len();
        if n == 0 {
            proof {
                assert(stages@.map_values(|st: TaskGraphStage| st.tasks@) =~= stage_lists(g, p));
            }
            return stages;
        }
        let mut max: usize = 0;
        let mut i: usize = 0;
        while i < n
            invariant
                n == p.len(),
                p == placed@,
                forall|j: int| 0 <= j < p.len() ==> (#[trigger] p[j]) is Some,
                i <= n,
                max as nat == max_stage(p.take(i as int)),
            decreases n - i,
        {
            proof {
                assert(p.take(i + 1).drop_last() =~= p.take(i as int));
                assert(p.take(i + 1).last() == p[i as int]);
            }
            let stage = placed[i].unwrap();
            if stage > max {
                max = stage;
            }
            i = i + 1;
        }
        proof {
            assert(p.take(n as int) =~= p);
        }
        let mut s: usize = 0;
        loop
            invariant_except_break
                s <= max,
                stages@.len() == s,
            invariant
                n == p.len(),
                p == placed@,
                g == tasks@,
                p.len() == g.entries.len(),
                max as nat == max_stage(p),
                forall|t: int| 0 <= t < stages@.len() ==> (#[trigger] stages@[t]).tasks@ == all_handles(g).filter(
                    in_stage(p, t),
                ),
            ensures
                stages@.len() == max + 1,
            decreases max - s,
        {
            let list = Self::stage_tasks(tasks, placed, s);
            stages.push(TaskGraphStage { tasks: list });
            if s == max {
                break;
            }
            s = s + 1;
        }
        proof {
            assert(stages@.map_values(|st: TaskGraphStage| st.tasks@) =~= stage_lists(g, p));
        }
        stages
    }

    /// The store that holds the tasks' data.
    pub closed spec fn store(&self) -> MetaValueStore {
        self.store
    }

    /// A well-formed graph's arguments all name tasks of the graph, and no
    /// task was ever removed from it.
    pub proof fn lemma_wf_deps_closed(&self)
        requires
            self.wf(),
        ensures
            deps_closed(self.tasks()),
            self.tasks().unused.len() == 0,
    {
    }

    pub fn new() -> (r: Self)
        ensures
            r.wf(),
            r.tasks().entries.len() == 0,
            acyclic(r.tasks()),
            r.stages().len() == 0,
            r.store().wf(),
            forall|id: StoreValueId| r.store().value_of(id) is None,
    {
        TaskGraph { task_instances: StableTable::new(), stages: Vec::new(), store: MetaValueStore::new() }
    }

    /// Adds a task whose output is stored at `data` and that reads the given
    /// arguments and queues; every argument must name a task of the graph, or,
    /// when it reads the last evaluation, the task being added.
    pub fn add_task(&mut self, data: StoreValueId, args: Vec<TaskDataArg>, queues: Vec<TaskQueueArg>) -> (r: TaskHandle)
        requires
            old(self).wf(),
            forall|a: int|
                0 <= a < args@.len() ==> old(self).tasks().matches((#[trigger] args@[a]).result_of.0) || (
                args@[a].last_frame && args@[a].result_of.0 == old(self).tasks().next_key()),
        ensures
            final(self).wf(),
            r.0 == old(self).tasks().next_key(),
            final(self).tasks() == old(self).tasks().added(
                TaskInstance { args, queues, data, stage: 0, last_frame_data: None },
            ),
            acyclic(old(self).tasks()) ==> acyclic(final(self).tasks()),
            final(self).stages() == old(self).stages(),
            final(self).store() == old(self).store(),
    {
        let ghost g = self.task_instances@;
        let instance = TaskInstance { args, queues, data, stage: 0, last_frame_data: None };
        let ghost inst = instance;
        let r = self.task_instances.add(instance);
        proof {
            if acyclic(g) {
                lemma_add_keeps_acyclic(g, inst);
            }
            let g1 = self.task_instances@;
            assert forall|i: int, a: int|
                0 <= i < g1.entries.len() && 0 <= a < arg_count(g1, i) implies g1.matches(
                (#[trigger] dep_of(g1, i, a)).0,
            ) by {
                if g.unused.len() > 0 {
                    let idx = g.unused.last().raw().index as int;
                    if i == idx {
                        assert(dep_of(g1, i, a) == inst.args@[a].result_of);
                    } else {
                        assert(dep_of(g1, i, a) == dep_of(g, i, a));
                    }
                } else {
                    if i == g.entries.len() {
                        assert(dep_of(g1, i, a) == inst.args@[a].result_of);
                    } else {
                        assert(dep_of(g1, i, a) == dep_of(g, i, a));
                    }
                }
            }
        }
        r
    }

    /// The handle the next `add_task` returns, so that a task can be given its
    /// own last-evaluation output as an argument.
    pub fn next_task_handle(&self) -> (r: TaskHandle)
        requires
            self.wf(),
        ensures
            r.0 == self.tasks().next_key(),
    {
        TaskHandle(StableTableKey { index: self.task_instances.entries.len(), version: 0 })
    }

    /// The handle under which the output of `task` is stored.
    pub fn result_of(&self, task: TaskHandle) -> (r: StoreValueId)
        requires
            self.tasks().wf(),
            self.tasks().lookup(task.0) is Some,
        ensures
            r == self.tasks().lookup(task.0).unwrap().data,
    {
        self.task_instances.index(task).data
    }

    /// The store handles a run feeds `task`: for each argument, the output of
    /// the task it names, from this evaluation or the last one, and the handle
    /// the task writes its own output to. `None` where the task, a task it
    /// names, or a last-evaluation output it asks for is missing.
    pub fn task_inputs(&self, task: TaskHandle) -> (r: Option<(Vec<StoreValueId>, StoreValueId)>)
        requires
            self.wf(),
        ensures
            r is None <==> (self.tasks().lookup(task.0) is None || exists|a: int|
                0 <= a < self.tasks().lookup(task.0).unwrap().args@.len() && arg_input(
                    self.tasks(),
                    #[trigger] self.tasks().lookup(task.0).unwrap().args@[a],
                ) is None),
            r matches Some((inputs, output)) ==> {
                let inst = self.tasks().lookup(task.0).unwrap();
                &&& output == inst.data
                &&& inputs@.len() == inst.args@.len()
                &&& forall|a: int|
                    0 <= a < inputs@.len() ==> Some(#[trigger] inputs@[a]) == arg_input(self.tasks(), inst.args@[a])
            },
    {
        let ghost g = self.task_instances@;
        let instance = match self.task_instances.get(task) {
            Some(instance) => instance,
            None => {
                return None;
            },
        };
        let mut inputs: Vec<StoreValueId> = Vec::new();
        let mut a: usize = 0;
        while a < instance.args.len()
            invariant
                g == self.task_instances@,
                g.wf(),
                g.lookup(task.0) == Some(*instance),
                a <= instance.args@.len(),
                inputs@.len() == a,
                forall|b: int| 0 <= b < a ==> Some(#[trigger] inputs@[b]) == arg_input(g, instance.args@[b]),
            decreases instance.args@.len() - a,
        {
            let arg = &instance.args[a];
            let input = match self.task_instances.get(arg.result_of) {
                Some(source) => {
                    if arg.last_frame {
                        source.last_frame_data
                    } else {
                        Some(source.data)
                    }
                },
                None => None,
            };
            match input {
                Some(value) => inputs.push(value),
                None => {
                    proof {
                        assert(arg_input(g, instance.args@[a as int]) is None);
                    }
                    return None;
                },
            }
            a = a + 1;
        }
        proof {
            assert forall|b: int| 0 <= b < instance.args@.len() implies arg_input(g, #[trigger] instance.args@[b]) is Some by {
                assert(Some(inputs@[b]) == arg_input(g, instance.args@[b]));
            }
        }
        Some((inputs, instance.data))
    }

    /// Places every task in a stage after all the tasks it reads in the same
    /// evaluation: succeeds exactly when those reads form no cycle, and then
    /// fills the stages from the placement; otherwise reports a cycle and
    /// leaves the stages as they were.
    // Prefer localized sorting functions, once they exist
    pub fn sort(&mut self) -> (r: Result<(), TaskGraphSortError>)
        requires
            old(self).wf(),
        ensures
            final(self).tasks() == old(self).tasks(),
            final(self).wf(),
            r is Ok <==> acyclic(old(self).tasks()),
            r matches Err(TaskGraphSortError::CycleDetected { cycle }) ==> is_cycle(old(self).tasks(), cycle@),
            r is Ok ==> exists|p: Seq<Option<usize>>|
                full_placement(old(self).tasks(), p) && final(self).stages() == #[trigger] stage_lists(
                    old(self).tasks(),
                    p,
                ),
            r is Err ==> final(self).stages() == old(self).stages(),
            final(self).store() == old(self).store(),
    {
        let ghost g = self.task_instances@;
        let n = self.task_instances.entries.len();
        let mut placed_instance_stages: Vec<Option<usize>> = Vec::new();
        while placed_instance_stages.len() < n
            invariant
                n == g.entries.len(),
                placed_instance_stages@.len() <= n,
                forall|i: int| 0 <= i < placed_instance_stages@.len() ==> (#[trigger] placed_instance_stages@[i]) is None,
            decreases n - placed_instance_stages@.len(),
        {
            placed_instance_stages.push(None);
        }
        proof {
            assert forall|i: int| 0 <= i < placed_instance_stages@.len() && #[trigger] placed_instance_stages@[i] is Some implies false by {
            }
        }
        let mut iter = self.task_instances.iter();
        loop
            invariant
                g == self.task_instances@,
                deps_closed(g),
                g.unused.len() == 0,
                iter.wf(),
                iter.slots() == g.entries,
                placement_ok(g, placed_instance_stages@),
                placed_instance_stages@.len() == g.entries.len(),
                forall|j: int| 0 <= j < iter.position() ==> (#[trigger] placed_instance_stages@[j]) is Some,
            ensures
                placement_ok(g, placed_instance_stages@),
                forall|j: int| 0 <= j < g.entries.len() ==> (#[trigger] placed_instance_stages@[j]) is Some,
            decreases g.entries.len() - iter.position(),
        {
            let ghost pos = iter.position() as int;
            match iter.next() {
                None => {
                    proof {
                        assert forall|j: int| 0 <= j < iter.position() implies (#[trigger] placed_instance_stages@[j]) is Some by {
                            if j >= pos {
                                assert(g.entries[j].value is Some);
                            }
                        }
                    }
                    break;
                },
                Some((task_handle, _task)) => {
                    let ghost p_before = placed_instance_stages@;
                    proof {
                        let i = task_handle.0.index as int;
                        assert(g.entries[i].value is Some);
                        if i > pos {
                            assert(g.entries[pos].value is Some);
                        }
                    }
                    match Self::resolve_node_placement(task_handle, &self.task_instances, &mut placed_instance_stages) {
                        Ok(_) => {},
                        Err(err) => {
                            return Err(err);
                        },
                    }
                    proof {
                        assert forall|j: int| 0 <= j < iter.position() implies (#[trigger] placed_instance_stages@[j]) is Some by {
                            if j < pos {
                                assert(p_before[j] is Some);
                            }
                        }
                    }
                },
            }
        }
        proof {
            assert forall|c: Seq<TaskHandle>| !is_cycle(g, c) by {
                if is_cycle(g, c) {
                    lemma_cycle_unplaceable(g, placed_instance_stages@, c);
                    assert(g.matches(c[0].0));
                    assert(placed_instance_stages@[c[0].0.index as int] is None);
                    assert(placed_instance_stages@[c[0].0.index as int] is Some);
                }
            }
        }
        self.stages = Self::stages_of(&self.task_instances, &placed_instance_stages);
        proof {
            assert(full_placement(g, placed_instance_stages@));
        }
        Ok(())
    }
}

/// The slot numbers of a cycle's tasks, joined by arrows.
pub open spec fn cycle_text(cycle: Seq<TaskHandle>) -> Seq<char> {
    join(cycle.map_values(|h: TaskHandle| decimal(h.0.index as nat)), " -> "@)
}

/// The cycle as text: each task's slot number, joined by arrows.
pub fn format_cycle(cycle: &[TaskHandle]) -> (r: String)
    ensures
        r@ == cycle_text(cycle@),
{
    let mut text = String::new();
    let mut i: usize = 0;
    let ghost parts = cycle@.map_values(|h: TaskHandle| decimal(h.0.index as nat));
    while i < cycle.len()
        invariant
            i <= cycle@.len(),
            parts == cycle@.map_values(|h: TaskHandle| decimal(h.0.index as nat)),
            text@ == join(parts.take(i as int), " -> "@),
        decreases cycle@.len() - i,
    {
        if i > 0 {
            text.append(" -> ");
        }
        push_decimal(&mut text, cycle[i].0.index as u64);
        proof {
            assert(parts.take(i + 1).drop_last() =~= parts.take(i as int));
            assert(parts.take(i + 1).last() == decimal(cycle@[i as int].0.index as nat));
            if i == 0 {
                assert(parts.take(1) =~= seq![parts[0]]);
            }
        }
        i = i + 1;
    }
    proof {
        assert(parts.take(cycle@.len() as int) =~= parts);
    }
    text
}

impl TaskGraphSortError {
    /// The error as a sentence.
    pub fn message(&self) -> (r: String)
        ensures
            self matches TaskGraphSortError::CycleDetected { cycle } ==> r@ == "Cycle detected in task graph: "@
                + cycle_text(cycle@),
    {
        match self {
            TaskGraphSortError::CycleDetected { cycle } => {
                let mut text = String::from_str("Cycle detected in task graph: ");
                let names = format_cycle(cycle.as_slice());
                text.append(names.as_str());
                text
            },
        }
    }
}

} // verus!
