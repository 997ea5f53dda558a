use crate::cache::{cacheable, is_task_cacheable, CacheMetadata};
use crate::dag::{
    contains_name, lemma_ready_upto_contains, lemma_valid_dag_has_ready_task, names_view,
    ready_tasks, Dag,
};
use crate::engine::{engine_answers, pairs_view, FileEngine};
use crate::models::{entries_insert, lookup, TaskDefinition};
use vstd::prelude::*;
use vstd::set_lib::lemma_len_subset;
use vstd::string::StringExecFns;

verus! {

/// A name is kept by `without` exactly when it is in `s` and not excluded: every task the
/// run loop considers in a pass may be started.
pub proof fn lemma_without_contains(s: Seq<Seq<char>>, excluded: Seq<Seq<char>>, x: Seq<char>)
    ensures
        without(s, excluded).contains(x) <==> (s.contains(x) && !excluded.contains(x)),
    decreases s.len(),
{
    if s.len() > 0 {
        let init = s.drop_last();
        lemma_without_contains(init, excluded, x);
        let r = without(init, excluded);
        assert(s == init.push(s.last()));
        if s.contains(x) && x != s.last() {
            let k = choose|k: int| 0 <= k < s.len() && s[k] == x;
            assert(k < init.len());
            assert(init[k] == x);
        }
        if init.contains(x) {
            let k = choose|k: int| 0 <= k < init.len() && init[k] == x;
            assert(s[k] == x);
        }
        if !excluded.contains(s.last()) {
            let r2 = r.push(s.last());
            if r2.contains(x) {
                let k = choose|k: int| 0 <= k < r2.len() && r2[k] == x;
                if k < r.len() {
                    assert(r[k] == x);
                }
            }
            if r.contains(x) {
                let k = choose|k: int| 0 <= k < r.len() && r[k] == x;
                assert(r2[k] == x);
            }
            if x == s.last() {
                assert(r2[r.len() as int] == x);
            }
        }
    }
}

/// How a launched task ended: on success, with the cache key and the fingerprint to
/// record; on failure, with the number of retries it used.
pub enum TaskResult {
    Success(String, String, Option<String>),
    Failure(String, u32),
}

/// Whether a ready task can be skipped because the cache holds its result, and otherwise
/// the fingerprint to record once it succeeds.
pub enum CacheDecision {
    Hit,
    Miss(Option<String>),
}

/// What the run loop does after a pass over the ready tasks.
pub enum LoopStep {
    Finished,
    AwaitResult,
    Deadlock,
    Continue,
}

/// What the retry loop of a launched task does after an attempt.
pub enum AttemptStep {
    Succeeded,
    RetryAfterDelay(u32),
    GiveUp(u32),
}

/// The names in `s` that are not in `excluded`, in order.
pub open spec fn without(s: Seq<Seq<char>>, excluded: Seq<Seq<char>>) -> Seq<Seq<char>>
    decreases s.len(),
{
    if s.len() == 0 {
        s
    } else {
        let r = without(s.drop_last(), excluded);
        if excluded.contains(s.last()) {
            r
        } else {
            r.push(s.last())
        }
    }
}

/// The cache verdict for a ready task: a task that is not cacheable, or whose fingerprint
/// could not be taken, runs and records nothing; otherwise it is skipped when the recorded
/// fingerprint equals the current one and its outputs are on disk, and else runs and
/// records the current fingerprint.
pub open spec fn cache_verdict(
    task: TaskDefinition,
    entries: Seq<(Seq<char>, String)>,
    key: Seq<char>,
    fingerprint: Option<Seq<char>>,
    outputs_present: bool,
) -> Option<Option<Seq<char>>> {
    if !cacheable(task) {
        Some(None)
    } else {
        match fingerprint {
            None => Some(None),
            Some(h) => if (match lookup(entries, key) {
                Some(old) => old@ == h,
                None => false,
            }) && outputs_present {
                None
            } else {
                Some(Some(h))
            },
        }
    }
}

pub open spec fn decision_view(d: CacheDecision) -> Option<Option<Seq<char>>> {
    match d {
        CacheDecision::Hit => None,
        CacheDecision::Miss(None) => Some(None),
        CacheDecision::Miss(Some(h)) => Some(Some(h@)),
    }
}

/// A task is skipped on a cache hit only when it is cacheable, its outputs are present,
/// and the recorded fingerprint is exactly the current one; a different recorded
/// fingerprint always makes the task run and record the current one.
pub proof fn lemma_hit_needs_equal_fingerprint(
    task: TaskDefinition,
    entries: Seq<(Seq<char>, String)>,
    key: Seq<char>,
    fingerprint: Option<Seq<char>>,
    outputs_present: bool,
)
    ensures
        cache_verdict(task, entries, key, fingerprint, outputs_present) is None ==> {
            &&& cacheable(task)
            &&& outputs_present
            &&& fingerprint is Some
            &&& lookup(entries, key) is Some
            &&& lookup(entries, key).unwrap()@ == fingerprint.unwrap()
        },
        cacheable(task) && fingerprint is Some && lookup(entries, key) is Some && lookup(
            entries,
            key,
        ).unwrap()@ != fingerprint.unwrap() ==> cache_verdict(
            task,
            entries,
            key,
            fingerprint,
            outputs_present,
        ) == Some(fingerprint),
{
}

/// Decides whether a ready task is skipped on a cache hit (see `cache_verdict`).
pub fn cache_decision(
    task_def: &TaskDefinition,
    metadata: &CacheMetadata,
    cache_key: &String,
    fingerprint: Option<String>,
    outputs_present: bool,
) -> (d: CacheDecision)
    ensures
        decision_view(d) == cache_verdict(
            *task_def,
            metadata.entries@,
            cache_key@,
            match fingerprint {
                Some(h) => Some(h@),
                None => None,
            },
            outputs_present,
        ),
        d is Hit ==> {
            &&& cacheable(*task_def)
            &&& outputs_present
            &&& fingerprint is Some
            &&& lookup(metadata.entries@, cache_key@) is Some
            &&& lookup(metadata.entries@, cache_key@).unwrap()@ == fingerprint.unwrap()@
        },
        d matches CacheDecision::Miss(Some(x)) ==> fingerprint is Some && x@ == fingerprint.unwrap()@,
        cacheable(*task_def) && fingerprint is Some && !(outputs_present && lookup(
            metadata.entries@,
            cache_key@,
        ) is Some && lookup(metadata.entries@, cache_key@).unwrap()@ == fingerprint.unwrap()@)
            ==> (d matches CacheDecision::Miss(Some(x)) && x@ == fingerprint.unwrap()@),
{
    if !is_task_cacheable(task_def) {
        return CacheDecision::Miss(None);
    }
    match fingerprint {
        None => CacheDecision::Miss(None),
        Some(hash) => {
            let same = match metadata.stored_hash(cache_key) {
                Some(old) => *old == hash,
                None => false,
            };
            if same && outputs_present {
                CacheDecision::Hit
            } else {
                CacheDecision::Miss(Some(hash))
            }
        },
    }
}

/// The retry verdict after an attempt of a task that has used `retries` retries and may
/// use `max_retries`: a failure counts one more retry, which is taken while the count does
/// not pass the maximum; otherwise the task gives up, reporting the retries it used.
pub open spec fn attempt_verdict(succeeded: bool, retries: u32, max_retries: u32) -> AttemptStep {
    if succeeded {
        AttemptStep::Succeeded
    } else if retries + 1 <= max_retries {
        AttemptStep::RetryAfterDelay((retries + 1) as u32)
    } else {
        AttemptStep::GiveUp(retries)
    }
}

/// Decides what follows an attempt (see `attempt_verdict`).
pub fn after_attempt(succeeded: bool, retries: u32, max_retries: u32) -> (step: AttemptStep)
    requires
        !succeeded ==> retries < u32::MAX,
    ensures
        step == attempt_verdict(succeeded, retries, max_retries),
        succeeded ==> step == AttemptStep::Succeeded,
        !succeeded ==> step != AttemptStep::Succeeded,
        !succeeded && retries < max_retries ==> step == AttemptStep::RetryAfterDelay(
            (retries + 1) as u32,
        ),
        !succeeded && retries >= max_retries ==> step == AttemptStep::GiveUp(retries),
{
    if succeeded {
        return AttemptStep::Succeeded;
    }
    let retries = retries + 1;
    if retries <= max_retries {
        AttemptStep::RetryAfterDelay(retries)
    } else {
        AttemptStep::GiveUp(retries - 1)
    }
}

/// A successful attempt always ends the retry loop with success, whatever retries were
/// used and allowed; a failed one never counts as success.
pub proof fn lemma_success_ends_retries(retries: u32, max_retries: u32)
    ensures
        attempt_verdict(true, retries, max_retries) == AttemptStep::Succeeded,
        attempt_verdict(false, retries, max_retries) != AttemptStep::Succeeded,
{
}

/// A task that fails every attempt is retried after each of its first `max_retries`
/// failures and gives up after the next one, reporting `max_retries` retries: it runs
/// exactly `max_retries + 1` times.
pub proof fn lemma_failing_task_runs_retries_plus_one(max_retries: u32, k: u32)
    requires
        max_retries < u32::MAX,
        k <= max_retries,
    ensures
        k < max_retries ==> attempt_verdict(false, k, max_retries) == AttemptStep::RetryAfterDelay(
            (k + 1) as u32,
        ),
        k == max_retries ==> attempt_verdict(false, k, max_retries) == AttemptStep::GiveUp(
            max_retries,
        ),
{
}

/// The declared inputs whose paths are not on disk, given whether each one is.
pub open spec fn missing_entries(entries: Seq<(Seq<char>, String)>, on_disk: Seq<bool>) -> Seq<
    (Seq<char>, Seq<char>),
>
    decreases entries.len(),
{
    if entries.len() == 0 {
        Seq::empty()
    } else {
        let r = missing_entries(entries.drop_last(), on_disk);
        if on_disk[entries.len() - 1] {
            r
        } else {
            r.push((entries.last().0, entries.last().1@))
        }
    }
}

/// The (name, path) pairs of the task's inputs that are not on disk, given whether each
/// input (in declaration order) is.
pub fn missing_inputs_given(task_def: &TaskDefinition, on_disk: &Vec<bool>) -> (missing: Vec<(String, String)>)
    requires
        on_disk@.len() == task_def.inputs@.len(),
    ensures
        pairs_view(missing@) == missing_entries(task_def.inputs@, on_disk@),
{
    let n = task_def.inputs.len();
    let mut missing: Vec<(String, String)> = Vec::new();
    let mut i: usize = 0;
    while i < n
        invariant
            n == task_def.inputs@.len(),
            n == on_disk@.len(),
            i <= n,
            pairs_view(missing@) == missing_entries(task_def.inputs@.take(i as int), on_disk@),
        decreases n - i,
    {
        assert(task_def.inputs@.take(i + 1).drop_last() =~= task_def.inputs@.take(i as int));
        if !on_disk[i] {
            let name = task_def.inputs.key_at(i).clone();
            let path = task_def.inputs.value_at(i).clone();
            let ghost before = missing@;
            missing.push((name, path));
            assert(pairs_view(missing@) =~= pairs_view(before).push(
                (task_def.inputs@[i as int].0, task_def.inputs@[i as int].1@),
            ));
        }
        i = i + 1;
    }
    assert(task_def.inputs@.take(n as int) =~= task_def.inputs@);
    missing
}

/// Nothing is missing exactly when every input was found.
pub proof fn lemma_nothing_missing(entries: Seq<(Seq<char>, String)>, on_disk: Seq<bool>)
    requires
        entries.len() <= on_disk.len(),
    ensures
        missing_entries(entries, on_disk).len() == 0 <==> forall|i: int|
            0 <= i < entries.len() ==> #[trigger] on_disk[i],
    decreases entries.len(),
{
    if entries.len() > 0 {
        lemma_nothing_missing(entries.drop_last(), on_disk);
    }
}

/// Given the engine's answers for the inputs: a launch goes ahead when every input was
/// found, and is refused, with the missing (name, path) pairs, when one was not.
pub open spec fn launch_verdict(
    entries: Seq<(Seq<char>, String)>,
    on_disk: Seq<bool>,
    r: Result<(), Vec<(String, String)>>,
) -> bool {
    match r {
        Ok(()) => forall|i: int| 0 <= i < entries.len() ==> #[trigger] on_disk[i],
        Err(missing) => missing@.len() > 0 && pairs_view(missing@) == missing_entries(entries, on_disk),
    }
}

/// Asks the file engine about every declared input's path, in order, and returns the
/// inputs it does not find.
pub fn missing_inputs<F: FileEngine>(engine: &F, task_def: &TaskDefinition) -> (missing: Vec<(String, String)>)
    ensures
        exists|on_disk: Seq<bool>|
            engine_answers(*engine, task_def.inputs@, on_disk) && pairs_view(missing@)
                == #[trigger] missing_entries(task_def.inputs@, on_disk),
{
    let n = task_def.inputs.len();
    let mut on_disk: Vec<bool> = Vec::new();
    let mut i: usize = 0;
    while i < n
        invariant
            n == task_def.inputs@.len(),
            i <= n,
            on_disk@.len() == i,
            forall|j: int| 0 <= j < i ==> engine.reports(task_def.inputs@[j].1@, #[trigger] on_disk@[j]),
        decreases n - i,
    {
        let found = engine.file_exists(task_def.inputs.value_at(i).as_str());
        on_disk.push(found);
        i = i + 1;
    }
    let missing = missing_inputs_given(task_def, &on_disk);
    assert(engine_answers(*engine, task_def.inputs@, on_disk@));
    missing
}

/// The progress of a pipeline run: the tasks that have completed (run, or skipped on a
/// cache hit), the tasks running, how many have finished, and how many there are.
pub struct RunState {
    pub completed: Vec<String>,
    pub running: Vec<String>,
    pub finished_count: usize,
    pub total: usize,
}

/// Every task that task `i` depends on has completed.
pub open spec fn deps_done(
    nodes: Seq<Seq<char>>,
    edges: Seq<(int, int)>,
    completed: Seq<Seq<char>>,
    i: int,
) -> bool {
    forall|u: int| #[trigger] edges.contains((u, i)) ==> completed.contains(nodes[u])
}

proof fn lemma_deps_done_mono(
    nodes: Seq<Seq<char>>,
    edges: Seq<(int, int)>,
    c: Seq<Seq<char>>,
    c2: Seq<Seq<char>>,
    i: int,
)
    requires
        deps_done(nodes, edges, c, i),
        forall|y: Seq<char>| #[trigger] c.contains(y) ==> c2.contains(y),
    ensures
        deps_done(nodes, edges, c2, i),
{
    assert forall|u: int| #[trigger] edges.contains((u, i)) implies c2.contains(nodes[u]) by {
        assert(c.contains(nodes[u]));
    }
}

proof fn lemma_ready_not_completed(dag: Dag, c: Seq<Seq<char>>, x: Seq<char>)
    requires
        ready_tasks(dag.nodes(), dag.edges(), c).contains(x),
    ensures
        !c.contains(x),
{
    lemma_ready_upto_contains(dag.nodes(), dag.edges(), c, dag.nodes().len(), x);
}

/// A ready task stays ready when more tasks complete, as long as it is not one of them.
proof fn lemma_still_ready(dag: Dag, c: Seq<Seq<char>>, c2: Seq<Seq<char>>, x: Seq<char>)
    requires
        ready_tasks(dag.nodes(), dag.edges(), c).contains(x),
        forall|y: Seq<char>| #[trigger] c.contains(y) ==> c2.contains(y),
        !c2.contains(x),
    ensures
        ready_tasks(dag.nodes(), dag.edges(), c2).contains(x),
{
    let nodes = dag.nodes();
    let edges = dag.edges();
    lemma_ready_upto_contains(nodes, edges, c, nodes.len(), x);
    lemma_ready_upto_contains(nodes, edges, c2, nodes.len(), x);
    let i = choose|i: int|
        0 <= i < nodes.len() && #[trigger] crate::dag::is_ready(nodes, edges, c, i) && nodes[i] == x;
    assert forall|u: int| #[trigger] edges.contains((u, i)) implies c2.contains(nodes[u]) by {
        assert(c.contains(nodes[u]));
    }
    assert(crate::dag::is_ready(nodes, edges, c2, i));
}

/// `names` holds no name twice and only names of tasks in `nodes`.
pub open spec fn distinct_tasks(names: Seq<Seq<char>>, nodes: Seq<Seq<char>>) -> bool {
    &&& names.no_duplicates()
    &&& forall|x: Seq<char>| #[trigger] names.contains(x) ==> nodes.contains(x)
}

/// Appending `x` adds exactly `x` to what a list of names holds.
proof fn lemma_push_contains(s: Seq<Seq<char>>, x: Seq<char>)
    ensures
        forall|y: Seq<char>| #[trigger] s.push(x).contains(y) <==> (s.contains(y) || y == x),
{
    assert forall|y: Seq<char>| #[trigger] s.push(x).contains(y) <==> (s.contains(y) || y == x) by {
        let t = s.push(x);
        if t.contains(y) {
            let k = choose|k: int| 0 <= k < t.len() && t[k] == y;
            if k < s.len() {
                assert(s[k] == y);
            }
        }
        if s.contains(y) {
            let k = choose|k: int| 0 <= k < s.len() && s[k] == y;
            assert(t[k] == y);
        }
        if y == x {
            assert(t[s.len() as int] == y);
        }
    }
}

/// Appending a task of the graph that the list misses keeps its tasks distinct.
proof fn lemma_push_distinct(s: Seq<Seq<char>>, nodes: Seq<Seq<char>>, x: Seq<char>)
    requires
        distinct_tasks(s, nodes),
        nodes.contains(x),
        !s.contains(x),
    ensures
        distinct_tasks(s.push(x), nodes),
{
    let t = s.push(x);
    lemma_push_contains(s, x);
    assert forall|a: int, b: int| 0 <= a < b < t.len() implies t[a] != t[b] by {
        if b == t.len() - 1 {
            assert(s.contains(s[a]));
        }
    }
}

/// Removing position `i` from a list of distinct names drops exactly the name there, and
/// keeps the rest distinct.
proof fn lemma_remove_contains(s: Seq<Seq<char>>, i: int)
    requires
        0 <= i < s.len(),
        s.no_duplicates(),
    ensures
        forall|y: Seq<char>| #[trigger] s.remove(i).contains(y) <==> (s.contains(y) && y != s[i]),
        s.remove(i).no_duplicates(),
{
    let t = s.remove(i);
    assert forall|y: Seq<char>| #[trigger] t.contains(y) <==> (s.contains(y) && y != s[i]) by {
        if t.contains(y) {
            let k = choose|k: int| 0 <= k < t.len() && t[k] == y;
            let k0 = if k < i { k } else { k + 1 };
            assert(t[k] == s[k0]);
        }
        if s.contains(y) && y != s[i] {
            let k = choose|k: int| 0 <= k < s.len() && s[k] == y;
            if k < i {
                assert(t[k] == y);
            } else {
                assert(k > i);
                assert(t[k - 1] == y);
            }
        }
    }
    assert forall|a: int, b: int| 0 <= a < b < t.len() implies t[a] != t[b] by {
        let a0 = if a < i { a } else { a + 1 };
        let b0 = if b < i { b } else { b + 1 };
        assert(t[a] == s[a0] && t[b] == s[b0]);
    }
}

/// A list of distinct tasks that misses a task of the graph is shorter than the graph.
proof fn lemma_fewer_than_nodes(names: Seq<Seq<char>>, nodes: Seq<Seq<char>>, x: Seq<char>)
    requires
        distinct_tasks(names, nodes),
        nodes.contains(x),
        !names.contains(x),
    ensures
        names.len() < nodes.len(),
{
    let bigger = names.push(x);
    assert forall|a: int, b: int| 0 <= a < b < bigger.len() implies bigger[a] != bigger[b] by {
        if b == bigger.len() - 1 {
            assert(names.contains(names[a]));
        }
    }
    assert(bigger.no_duplicates());
    bigger.unique_seq_to_set();
    assert forall|y: Seq<char>| bigger.to_set().contains(y) implies nodes.to_set().contains(y) by {
        let k = choose|k: int| 0 <= k < bigger.len() && bigger[k] == y;
        if k < names.len() {
            assert(names.contains(names[k]));
        }
    }
    lemma_len_subset(bigger.to_set(), nodes.to_set());
    nodes.lemma_cardinality_of_set();
}

/// A list of distinct tasks of the graph that is as long as the graph (whose tasks are
/// distinct) holds every task.
proof fn lemma_all_nodes_listed(names: Seq<Seq<char>>, nodes: Seq<Seq<char>>, v: int)
    requires
        distinct_tasks(names, nodes),
        names.len() >= nodes.len(),
        0 <= v < nodes.len(),
    ensures
        names.contains(nodes[v]),
{
    if !names.contains(nodes[v]) {
        assert(nodes.contains(nodes[v]));
        lemma_fewer_than_nodes(names, nodes, nodes[v]);
    }
}

impl RunState {
    pub open spec fn completed_names(&self) -> Seq<Seq<char>> {
        names_view(self.completed@)
    }

    pub open spec fn running_names(&self) -> Seq<Seq<char>> {
        names_view(self.running@)
    }

    /// The run is consistent with the graph: completed and running tasks are distinct
    /// tasks of the graph, no task is both, and the counts match.
    /// Besides, no task has completed or is running before all its dependencies completed.
    pub open spec fn wf(&self, dag: Dag) -> bool {
        &&& dag.nodes().no_duplicates()
        &&& forall|i: int|
            #![trigger dag.nodes()[i]]
            0 <= i < dag.nodes().len() && (self.completed_names().contains(dag.nodes()[i])
                || self.running_names().contains(dag.nodes()[i])) ==> deps_done(
                dag.nodes(),
                dag.edges(),
                self.completed_names(),
                i,
            )
        &&& distinct_tasks(self.completed_names(), dag.nodes())
        &&& distinct_tasks(self.running_names(), dag.nodes())
        &&& forall|x: Seq<char>| #[trigger] self.running_names().contains(x) ==> !self.completed_names().contains(x)
        &&& self.finished_count == self.completed@.len()
        &&& self.total == dag.nodes().len()
    }

    /// A task may be started (or skipped on a cache hit) when it is ready and not running.
    pub open spec fn can_start(&self, dag: Dag, task: Seq<char>) -> bool {
        &&& ready_tasks(dag.nodes(), dag.edges(), self.completed_names()).contains(task)
        &&& !self.running_names().contains(task)
    }

    /// The state of a run that has not started.
    pub fn new(dag: &Dag) -> (st: RunState)
        requires
            dag.nodes().no_duplicates(),
        ensures
            st.completed@.len() == 0,
            st.running@.len() == 0,
            st.finished_count == 0,
            st.wf(*dag),
    {
        let st = RunState {
            completed: Vec::new(),
            running: Vec::new(),
            finished_count: 0,
            total: dag.total_tasks(),
        };
        assert(st.completed_names() =~= Seq::<Seq<char>>::empty());
        assert(st.running_names() =~= Seq::<Seq<char>>::empty());
        st
    }

    /// The ready tasks that are not already running, in node order: those the run loop
    /// considers in a pass.
    pub fn tasks_to_start(&self, dag: &Dag) -> (tasks: Vec<String>)
        ensures
            names_view(tasks@) == without(
                ready_tasks(dag.nodes(), dag.edges(), self.completed_names()),
                self.running_names(),
            ),
    {
        let ready = dag.get_ready_tasks(&self.completed);
        let ghost rv = names_view(ready@);
        let n = ready.len();
        let mut tasks: Vec<String> = Vec::new();
        let mut i: usize = 0;
        while i < n
            invariant
                n == ready@.len(),
                rv == names_view(ready@),
                i <= n,
                names_view(tasks@) == without(rv.take(i as int), self.running_names()),
            decreases n - i,
        {
            assert(rv.take(i + 1).drop_last() =~= rv.take(i as int));
            assert(rv.take(i + 1).last() == ready@[i as int]@);
            if !contains_name(&self.running, &ready[i]) {
                let ghost before = tasks@;
                tasks.push(ready[i].clone());
                assert(names_view(tasks@) =~= names_view(before).push(ready@[i as int]@));
            }
            i = i + 1;
        }
        assert(rv.take(n as int) =~= rv);
        tasks
    }

    proof fn lemma_ready_is_node(&self, dag: Dag, task: Seq<char>)
        requires
            ready_tasks(dag.nodes(), dag.edges(), self.completed_names()).contains(task),
        ensures
            dag.nodes().contains(task),
            !self.completed_names().contains(task),
            dag.nodes().no_duplicates() ==> forall|i: int|
                0 <= i < dag.nodes().len() && dag.nodes()[i] == task ==> deps_done(
                    dag.nodes(),
                    dag.edges(),
                    self.completed_names(),
                    i,
                ),
    {
        lemma_ready_upto_contains(
            dag.nodes(),
            dag.edges(),
            self.completed_names(),
            dag.nodes().len(),
            task,
        );
        let i = choose|i: int|
            0 <= i < dag.nodes().len() && #[trigger] crate::dag::is_ready(
                dag.nodes(),
                dag.edges(),
                self.completed_names(),
                i,
            ) && dag.nodes()[i] == task;
        assert(dag.nodes()[i] == task);
        if dag.nodes().no_duplicates() {
            assert forall|j: int| 0 <= j < dag.nodes().len() && dag.nodes()[j] == task implies deps_done(
                dag.nodes(),
                dag.edges(),
                self.completed_names(),
                j,
            ) by {
                assert(j == i);
            }
        }
    }

    /// Marks a task as completed without running it (its result came from the cache).
    pub fn mark_cached(&mut self, dag: &Dag, task: String)
        requires
            old(self).wf(*dag),
            old(self).can_start(*dag, task@),
        ensures
            final(self).completed@ == old(self).completed@.push(task),
            final(self).running@ == old(self).running@,
            final(self).finished_count == old(self).finished_count + 1,
            final(self).total == old(self).total,
            final(self).wf(*dag),
            forall|x: Seq<char>|
                old(self).can_start(*dag, x) && x != task@ ==> #[trigger] final(self).can_start(
                    *dag,
                    x,
                ),
    {
        proof {
            self.lemma_ready_is_node(*dag, task@);
            lemma_fewer_than_nodes(self.completed_names(), dag.nodes(), task@);
        }
        let ghost old_c = self.completed_names();
        self.completed.push(task);
        self.finished_count = self.finished_count + 1;
        proof {
            let c = self.completed_names();
            assert(c =~= old_c.push(task@));
            lemma_push_contains(old_c, task@);
            lemma_push_distinct(old_c, dag.nodes(), task@);
            assert forall|x: Seq<char>|
                ready_tasks(dag.nodes(), dag.edges(), old_c).contains(x) && !self.running_names().contains(x)
                    && x != task@ implies #[trigger] self.can_start(*dag, x) by {
                lemma_ready_not_completed(*dag, old_c, x);
                lemma_still_ready(*dag, old_c, c, x);
            }
            let nodes = dag.nodes();
            assert forall|i: int|
                #![trigger nodes[i]]
                0 <= i < nodes.len() && (c.contains(nodes[i]) || self.running_names().contains(
                    nodes[i],
                )) implies deps_done(nodes, dag.edges(), c, i) by {
                lemma_deps_done_mono(nodes, dag.edges(), old_c, c, i);
            }
        }
    }

    /// Marks a task as launched.
    pub fn mark_launched(&mut self, dag: &Dag, task: String)
        requires
            old(self).wf(*dag),
            old(self).can_start(*dag, task@),
        ensures
            final(self).running@ == old(self).running@.push(task),
            final(self).completed@ == old(self).completed@,
            final(self).finished_count == old(self).finished_count,
            final(self).total == old(self).total,
            final(self).wf(*dag),
            forall|x: Seq<char>|
                old(self).can_start(*dag, x) && x != task@ ==> #[trigger] final(self).can_start(
                    *dag,
                    x,
                ),
    {
        proof {
            self.lemma_ready_is_node(*dag, task@);
        }
        let ghost old_r = self.running_names();
        self.running.push(task);
        proof {
            let r = self.running_names();
            assert(r =~= old_r.push(task@));
            lemma_push_contains(old_r, task@);
            lemma_push_distinct(old_r, dag.nodes(), task@);
        }
    }

    /// Launches a task only when the file engine finds every input it declares. A task
    /// with a missing input is not launched; the run is left as it was and fails with
    /// that task, and the missing (name, path) pairs are handed back.
    pub fn launch_if_inputs_present<F: FileEngine>(
        &mut self,
        dag: &Dag,
        engine: &F,
        task: String,
        task_def: &TaskDefinition,
    ) -> (r: Result<(), Vec<(String, String)>>)
        requires
            old(self).wf(*dag),
            old(self).can_start(*dag, task@),
        ensures
            final(self).wf(*dag),
            r is Ok ==> {
                &&& final(self).running@ == old(self).running@.push(task)
                &&& final(self).completed@ == old(self).completed@
                &&& final(self).finished_count == old(self).finished_count
                &&& final(self).total == old(self).total
            },
            r is Err ==> *final(self) == *old(self),
            forall|x: Seq<char>|
                old(self).can_start(*dag, x) && x != task@ ==> #[trigger] final(self).can_start(
                    *dag,
                    x,
                ),
            exists|on_disk: Seq<bool>|
                engine_answers(*engine, task_def.inputs@, on_disk) && #[trigger] launch_verdict(
                    task_def.inputs@,
                    on_disk,
                    r,
                ),
    {
        let missing = missing_inputs(engine, task_def);
        let ghost on_disk = choose|on_disk: Seq<bool>|
            engine_answers(*engine, task_def.inputs@, on_disk) && pairs_view(missing@)
                == #[trigger] missing_entries(task_def.inputs@, on_disk);
        if missing.len() > 0 {
            assert(launch_verdict(task_def.inputs@, on_disk, Err(missing)));
            return Err(missing);
        }
        proof {
            lemma_nothing_missing(task_def.inputs@, on_disk);
        }
        self.mark_launched(dag, task);
        assert(launch_verdict(task_def.inputs@, on_disk, Ok(())));
        Ok(())
    }

    /// Takes in the result of a launched task. On success the fingerprint, if any, is
    /// recorded under the task's cache key and the task moves from running to completed;
    /// on failure the run stops, and the failed task is returned.
    pub fn on_result(&mut self, dag: &Dag, result: TaskResult, metadata: &mut CacheMetadata) -> (failed: Option<String>)
        requires
            old(self).wf(*dag),
            result matches TaskResult::Success(id, _, _) ==> old(self).running_names().contains(id@),
        ensures
            final(self).wf(*dag),
            final(self).total == old(self).total,
            match result {
                TaskResult::Success(id, key, hash) => {
                    &&& failed is None
                    &&& final(self).completed@ == old(self).completed@.push(id)
                    &&& final(self).running_names() == old(self).running_names().remove(
                        old(self).running_names().index_of(id@),
                    )
                    &&& final(self).finished_count == old(self).finished_count + 1
                    &&& final(metadata).entries@ == match hash {
                        Some(h) => entries_insert(old(metadata).entries@, key@, h),
                        None => old(metadata).entries@,
                    }
                },
                TaskResult::Failure(id, _) => {
                    &&& failed == Some(id)
                    &&& *final(self) == *old(self)
                    &&& *final(metadata) == *old(metadata)
                },
            },
    {
        match result {
            TaskResult::Failure(id, _) => Some(id),
            TaskResult::Success(id, key, hash) => {
                match hash {
                    Some(h) => metadata.record(key, h),
                    None => {},
                }
                let ghost old_c = self.completed_names();
                let ghost old_r = self.running_names();
                let n = self.running.len();
                let mut i: usize = 0;
                while i < n && self.running[i] != id
                    invariant
                        n == self.running@.len(),
                        old_r == names_view(self.running@),
                        old_r.contains(id@),
                        i <= n,
                        forall|j: int| 0 <= j < i ==> old_r[j] != id@,
                    decreases n - i,
                {
                    i = i + 1;
                }
                proof {
                    if i == n {
                        let k = choose|k: int| 0 <= k < old_r.len() && old_r[k] == id@;
                        assert(false);
                    }
                    assert(old_r[i as int] == id@);
                    assert(old_r.index_of(id@) == i) by {
                        let k = old_r.index_of(id@);
                        assert(old_r[k] == id@);
                        if k != i {
                            assert(old_r.no_duplicates());
                        }
                    }
                    self.lemma_running_not_completed(*dag, id@);
                    lemma_fewer_than_nodes(old_c, dag.nodes(), id@);
                }
                self.running.remove(i);
                self.completed.push(id);
                self.finished_count = self.finished_count + 1;
                proof {
                    let c = self.completed_names();
                    let r = self.running_names();
                    assert(c =~= old_c.push(id@));
                    assert(r =~= old_r.remove(i as int));
                    lemma_push_contains(old_c, id@);
                    lemma_push_distinct(old_c, dag.nodes(), id@);
                    lemma_remove_contains(old_r, i as int);
                    let nodes = dag.nodes();
                    assert forall|j: int|
                        #![trigger nodes[j]]
                        0 <= j < nodes.len() && (c.contains(nodes[j]) || r.contains(nodes[j]))
                            implies deps_done(nodes, dag.edges(), c, j) by {
                        lemma_deps_done_mono(nodes, dag.edges(), old_c, c, j);
                    }
                }
                None
            },
        }
    }

    proof fn lemma_running_not_completed(&self, dag: Dag, x: Seq<char>)
        requires
            self.wf(dag),
            self.running_names().contains(x),
        ensures
            dag.nodes().contains(x),
            !self.completed_names().contains(x),
    {
    }

    /// What the run loop does next: stop when every task has finished, wait for a result
    /// while tasks run, report a deadlock when nothing runs and nothing is ready, and
    /// otherwise take another pass.
    pub fn next_step(&self, dag: &Dag) -> (step: LoopStep)
        requires
            self.wf(*dag),
        ensures
            step == (if self.finished_count >= self.total {
                LoopStep::Finished
            } else if self.running@.len() > 0 {
                LoopStep::AwaitResult
            } else if ready_tasks(dag.nodes(), dag.edges(), self.completed_names()).len() == 0 {
                LoopStep::Deadlock
            } else {
                LoopStep::Continue
            }),
            dag.wf() ==> step != LoopStep::Deadlock,
            step == LoopStep::Continue ==> without(
                ready_tasks(dag.nodes(), dag.edges(), self.completed_names()),
                self.running_names(),
            ).len() > 0,
            step == LoopStep::Finished ==> forall|v: int|
                0 <= v < dag.nodes().len() ==> self.completed_names().contains(#[trigger] dag.nodes()[v]),
    {
        if self.finished_count >= self.total {
            proof {
                assert forall|v: int| 0 <= v < dag.nodes().len() implies self.completed_names().contains(
                    #[trigger] dag.nodes()[v],
                ) by {
                    lemma_all_nodes_listed(self.completed_names(), dag.nodes(), v);
                }
            }
            return LoopStep::Finished;
        }
        if self.running.len() > 0 {
            return LoopStep::AwaitResult;
        }
        proof {
            if dag.wf() {
                self.lemma_unfinished_valid_run_has_ready(*dag);
            }
        }
        let ready = dag.get_ready_tasks(&self.completed);
        if ready.len() == 0 {
            LoopStep::Deadlock
        } else {
            proof {
                let rt = ready_tasks(dag.nodes(), dag.edges(), self.completed_names());
                assert(names_view(ready@)[0] == rt[0]);
                assert(!self.running_names().contains(rt[0]));
                lemma_without_contains(rt, self.running_names(), rt[0]);
            }
            LoopStep::Continue
        }
    }

    /// While tasks remain unfinished, a run over a valid DAG always has a ready task.
    pub proof fn lemma_unfinished_valid_run_has_ready(&self, dag: Dag)
        requires
            self.wf(dag),
            dag.wf(),
            self.finished_count < self.total,
        ensures
            ready_tasks(dag.nodes(), dag.edges(), self.completed_names()).len() > 0,
    {
        let c = self.completed_names();
        let nodes = dag.nodes();
        if forall|v: int| 0 <= v < nodes.len() ==> c.contains(#[trigger] nodes[v]) {
            assert forall|x: Seq<char>| nodes.to_set().contains(x) implies c.to_set().contains(x) by {
                let k = choose|k: int| 0 <= k < nodes.len() && nodes[k] == x;
                assert(c.contains(nodes[k]));
            }
            lemma_len_subset(nodes.to_set(), c.to_set());
            nodes.unique_seq_to_set();
            c.lemma_cardinality_of_set();
            assert(false);
        }
        let v = choose|v: int| 0 <= v < nodes.len() && !c.contains(#[trigger] nodes[v]);
        lemma_valid_dag_has_ready_task(dag, c, v);
    }
}

/// The message a run ends with when a task fails.
pub fn failure_message(task_id: &str) -> (msg: String)
    ensures
        msg@ == "Pipeline execution failed due to task '"@ + task_id@ + "'"@,
{
    let mut msg = "Pipeline execution failed due to task '".to_owned();
    msg.append(task_id);
    msg.append("'");
    msg
}

} // verus!
