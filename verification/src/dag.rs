use crate::graph::{
    graph_add_edge, graph_add_node, graph_edges, graph_incoming, graph_is_cyclic,
    graph_new, graph_node_count, graph_node_weight, graph_nodes, has_cycle, incoming_sources,
    is_walk,
};
use crate::models::{key_index, keys_of, task_deps, task_names, PipelineConfig};
use petgraph::graph::Graph;
use petgraph::Directed;
use vstd::prelude::*;
use vstd::string::StringExecFns;
use vstd::set_lib::{lemma_int_range, lemma_len_subset, set_int_range};

verus! {

/// The views of a list of names.
pub open spec fn names_view(v: Seq<String>) -> Seq<Seq<char>> {
    v.map_values(|s: String| s@)
}

/// The edges that task `i`'s dependencies contribute: one from each dependency to the task.
pub open spec fn deps_edges(config: PipelineConfig, i: int) -> Seq<(int, int)> {
    task_deps(config, i).map_values(|d: Seq<char>| (key_index(config.tasks@, d), i))
}

/// The edges contributed by the first `n` tasks, in order.
pub open spec fn edges_upto(config: PipelineConfig, n: nat) -> Seq<(int, int)>
    decreases n,
{
    if n == 0 {
        Seq::empty()
    } else {
        edges_upto(config, (n - 1) as nat) + deps_edges(config, n - 1)
    }
}

/// Every dependency edge of the pipeline: from each dependency to the task that declares it.
pub open spec fn dependency_edges(config: PipelineConfig) -> Seq<(int, int)> {
    edges_upto(config, config.tasks@.len())
}

/// Dependency `j` of task `i` names a task of the pipeline.
pub open spec fn dep_known(config: PipelineConfig, i: int, j: int) -> bool {
    task_names(config).contains(task_deps(config, i)[j])
}

pub open spec fn all_deps_known(config: PipelineConfig) -> bool {
    forall|i: int, j: int|
        0 <= i < config.tasks@.len() && 0 <= j < task_deps(config, i).len() ==> #[trigger] dep_known(
            config,
            i,
            j,
        )
}

/// Dependency `j` of task `i` is the first unknown one, tasks and dependencies taken in order.
pub open spec fn first_unknown_dep(config: PipelineConfig, i: int, j: int) -> bool {
    &&& 0 <= i < config.tasks@.len()
    &&& 0 <= j < task_deps(config, i).len()
    &&& !dep_known(config, i, j)
    &&& forall|i2: int, j2: int|
        0 <= i2 < config.tasks@.len() && 0 <= j2 < task_deps(config, i2).len() && (i2 < i || (i2
            == i && j2 < j)) ==> #[trigger] dep_known(config, i2, j2)
}

/// Why a pipeline definition is not a valid DAG.
pub enum DagError {
    UnknownDependency { task: String, dependency: String },
    Cycle,
}

impl DagError {
    /// The error as the pipeline reports it.
    pub fn message(&self) -> (msg: String)
        ensures
            match self {
                DagError::UnknownDependency { task, dependency } => msg@ == "Task '"@ + task@
                    + "' depends on unknown task '"@ + dependency@ + "'"@,
                DagError::Cycle => msg@ == "The pipeline definition contains a cycle and is not a valid DAG"@,
            },
    {
        match self {
            DagError::UnknownDependency { task, dependency } => {
                let mut msg = "Task '".to_owned();
                msg.append(task.as_str());
                msg.append("' depends on unknown task '");
                msg.append(dependency.as_str());
                msg.append("'");
                msg
            },
            DagError::Cycle => "The pipeline definition contains a cycle and is not a valid DAG".to_owned(),
        }
    }
}

/// Every edge joins two nodes of a graph with `n` nodes.
pub open spec fn edges_in_range(edges: Seq<(int, int)>, n: int) -> bool {
    forall|k: int|
        0 <= k < edges.len() ==> 0 <= #[trigger] edges[k].0 < n && 0 <= edges[k].1 < n
}

/// Task `i` has not completed and every task it depends on has.
pub open spec fn is_ready(
    nodes: Seq<Seq<char>>,
    edges: Seq<(int, int)>,
    completed: Seq<Seq<char>>,
    i: int,
) -> bool {
    &&& !completed.contains(nodes[i])
    &&& forall|u: int| #[trigger] edges.contains((u, i)) ==> completed.contains(nodes[u])
}

/// The ready tasks among the first `n` nodes, in node order.
pub open spec fn ready_upto(
    nodes: Seq<Seq<char>>,
    edges: Seq<(int, int)>,
    completed: Seq<Seq<char>>,
    n: nat,
) -> Seq<Seq<char>>
    decreases n,
{
    if n == 0 {
        Seq::empty()
    } else {
        let r = ready_upto(nodes, edges, completed, (n - 1) as nat);
        if is_ready(nodes, edges, completed, n - 1) {
            r.push(nodes[n - 1])
        } else {
            r
        }
    }
}

/// The tasks whose dependencies have all completed and that have not completed themselves,
/// in node order.
pub open spec fn ready_tasks(
    nodes: Seq<Seq<char>>,
    edges: Seq<(int, int)>,
    completed: Seq<Seq<char>>,
) -> Seq<Seq<char>> {
    ready_upto(nodes, edges, completed, nodes.len())
}

/// The dependency graph of a pipeline: one node per task, weighted by the task's name,
/// and an edge from each dependency to the task that needs it.
pub struct Dag {
    pub graph: Graph<String, (), Directed, u32>,
}

impl Dag {
    pub open spec fn nodes(&self) -> Seq<Seq<char>> {
        graph_nodes(self.graph)
    }

    pub open spec fn edges(&self) -> Seq<(int, int)> {
        graph_edges(self.graph)
    }

    /// Task names are distinct, edges join existing tasks, and there is no cycle.
    pub open spec fn wf(&self) -> bool {
        &&& self.nodes().no_duplicates()
        &&& edges_in_range(self.edges(), self.nodes().len() as int)
        &&& !has_cycle(self.edges())
    }
}

proof fn lemma_edges_upto_len_mono(config: PipelineConfig, a: nat, b: nat)
    requires
        a <= b,
    ensures
        edges_upto(config, a).len() <= edges_upto(config, b).len(),
    decreases b - a,
{
    if a < b {
        lemma_edges_upto_len_mono(config, a, (b - 1) as nat);
    }
}

proof fn lemma_edges_upto_in_range(config: PipelineConfig, n: nat)
    requires
        n <= config.tasks@.len(),
        all_deps_known(config),
    ensures
        edges_in_range(edges_upto(config, n), config.tasks@.len() as int),
    decreases n,
{
    if n > 0 {
        lemma_edges_upto_in_range(config, (n - 1) as nat);
        let prev = edges_upto(config, (n - 1) as nat);
        let de = deps_edges(config, n - 1);
        assert forall|k: int| 0 <= k < de.len() implies 0 <= #[trigger] de[k].0 < config.tasks@.len()
            && 0 <= de[k].1 < config.tasks@.len() by {
            assert(dep_known(config, n - 1, k));
            let d = task_deps(config, n - 1)[k];
            let ks = keys_of(config.tasks@);
            let w = choose|w: int| 0 <= w < ks.len() && ks[w] == d;
            assert(config.tasks@[w].0 == d);
        }
        let all = edges_upto(config, n);
        assert(all == prev + de);
        assert forall|k: int| 0 <= k < all.len() implies 0 <= #[trigger] all[k].0
            < config.tasks@.len() && 0 <= all[k].1 < config.tasks@.len() by {
            if k < prev.len() {
                assert(all[k] == prev[k]);
            } else {
                assert(all[k] == de[k - prev.len()]);
            }
        }
    }
}

/// Whether the list of names holds `name`.
pub fn contains_name(names: &Vec<String>, name: &String) -> (found: bool)
    ensures
        found == names_view(names@).contains(name@),
{
    let n = names.len();
    let mut i: usize = 0;
    while i < n
        invariant
            n == names@.len(),
            i <= n,
            forall|j: int| 0 <= j < i ==> names@[j]@ != name@,
        decreases n - i,
    {
        if names[i] == *name {
            assert(names_view(names@)[i as int] == name@);
            return true;
        }
        i = i + 1;
    }
    proof {
        if names_view(names@).contains(name@) {
            let j = choose|j: int| 0 <= j < names_view(names@).len() && names_view(names@)[j] == name@;
            assert(names@[j]@ == name@);
        }
    }
    false
}

proof fn lemma_incoming_contains(edges: Seq<(int, int)>, t: int, u: int)
    ensures
        incoming_sources(edges, t).contains(u) <==> edges.contains((u, t)),
    decreases edges.len(),
{
    if edges.len() > 0 {
        let init = edges.drop_last();
        lemma_incoming_contains(init, t, u);
        let rest = incoming_sources(init, t);
        assert(edges == init.push(edges.last()));
        if edges.contains((u, t)) {
            let k = choose|k: int| 0 <= k < edges.len() && edges[k] == (u, t);
            if k < edges.len() - 1 {
                assert(init[k] == (u, t));
            }
        }
        if init.contains((u, t)) {
            let k = choose|k: int| 0 <= k < init.len() && init[k] == (u, t);
            assert(edges[k] == (u, t));
        }
        if edges.last().1 == t {
            let s = seq![edges.last().0] + rest;
            assert(incoming_sources(edges, t) == s);
            if s.contains(u) {
                let k = choose|k: int| 0 <= k < s.len() && s[k] == u;
                if k > 0 {
                    assert(rest[k - 1] == u);
                }
            }
            if rest.contains(u) {
                let k = choose|k: int| 0 <= k < rest.len() && rest[k] == u;
                assert(s[k + 1] == u);
            }
            if edges.last() == (u, t) {
                assert(s[0] == u);
            }
        }
    }
}

impl Dag {
    /// The number of tasks in the graph.
    pub fn total_tasks(&self) -> (n: usize)
        ensures
            n == self.nodes().len(),
    {
        graph_node_count(&self.graph)
    }

    /// The tasks that can be started once the tasks in `completed` are done: those not yet
    /// completed whose dependencies all are, in node order.
    pub fn get_ready_tasks(&self, completed: &Vec<String>) -> (ready: Vec<String>)
        ensures
            names_view(ready@) == ready_tasks(self.nodes(), self.edges(), names_view(completed@)),
    {
        let ghost nodes = self.nodes();
        let ghost edges = self.edges();
        let ghost cv = names_view(completed@);
        let n = graph_node_count(&self.graph);
        let mut ready: Vec<String> = Vec::new();
        let mut i: usize = 0;
        while i < n
            invariant
                n == nodes.len(),
                nodes == self.nodes(),
                edges == self.edges(),
                cv == names_view(completed@),
                i <= n,
                names_view(ready@) == ready_upto(nodes, edges, cv, i as nat),
            decreases n - i,
        {
            let task_id = graph_node_weight(&self.graph, i);
            let done = contains_name(completed, task_id);
            let mut deps_satisfied = true;
            if !done {
                let sources = graph_incoming(&self.graph, i);
                let ghost inc = incoming_sources(edges, i as int);
                let m = sources.len();
                let mut k: usize = 0;
                while k < m && deps_satisfied
                    invariant
                        m == sources@.len(),
                        m == inc.len(),
                        k <= m,
                        n == nodes.len(),
                        nodes == self.nodes(),
                        cv == names_view(completed@),
                        forall|k2: int|
                            #![trigger sources@[k2]]
                            0 <= k2 < m ==> sources@[k2] as int == inc[k2] && sources@[k2] < n,
                        deps_satisfied <==> (forall|k2: int|
                            0 <= k2 < k ==> cv.contains(#[trigger] nodes[inc[k2]])),
                    decreases m - k,
                {
                    let src = sources[k];
                    assert(src == sources@[k as int]);
                    assert(src as int == inc[k as int] && src < n);
                    let dep = graph_node_weight(&self.graph, src);
                    assert(dep@ == nodes[inc[k as int]]);
                    let ghost before = deps_satisfied;
                    if !contains_name(completed, dep) {
                        deps_satisfied = false;
                    }
                    assert(deps_satisfied <==> (before && cv.contains(nodes[inc[k as int]])));
                    k = k + 1;
                }
                proof {
                    if deps_satisfied {
                        assert forall|u: int| #[trigger] edges.contains((u, i as int)) implies cv.contains(
                            nodes[u],
                        ) by {
                            lemma_incoming_contains(edges, i as int, u);
                            let k2 = choose|k2: int| 0 <= k2 < inc.len() && inc[k2] == u;
                            assert(cv.contains(nodes[inc[k2]]));
                        }
                    } else {
                        let k2 = choose|k2: int| 0 <= k2 < k && !cv.contains(#[trigger] nodes[inc[k2]]);
                        let u = inc[k2];
                        assert(inc.contains(u));
                        lemma_incoming_contains(edges, i as int, u);
                        assert(edges.contains((u, i as int)));
                    }
                }
            }
            assert(nodes[i as int] == task_id@);
            assert(is_ready(nodes, edges, cv, i as int) <==> (!done && deps_satisfied));
            if !done && deps_satisfied {
                ready.push(task_id.clone());
                assert(names_view(ready@) =~= ready_upto(nodes, edges, cv, i as nat).push(
                    nodes[i as int],
                ));
            }
            i = i + 1;
        }
        ready
    }

    /// Builds the dependency graph of a pipeline and checks that it is a valid DAG: every
    /// dependency names a task, and no task depends on itself, directly or through others.
    pub fn new(config: &PipelineConfig) -> (r: Result<Dag, DagError>)
        requires
            config.tasks@.len() < u32::MAX,
            dependency_edges(*config).len() < u32::MAX,
        ensures
            r is Ok <==> (all_deps_known(*config) && !has_cycle(dependency_edges(*config))),
            match r {
                Ok(dag) => {
                    &&& all_deps_known(*config)
                    &&& !has_cycle(dependency_edges(*config))
                    &&& dag.nodes() == task_names(*config)
                    &&& dag.edges() == dependency_edges(*config)
                    &&& dag.wf()
                },
                Err(DagError::UnknownDependency { task, dependency }) => exists|i: int, j: int|
                    first_unknown_dep(*config, i, j) && task@ == task_names(*config)[i]
                        && dependency@ == #[trigger] task_deps(*config, i)[j],
                Err(DagError::Cycle) => all_deps_known(*config) && has_cycle(
                    dependency_edges(*config),
                ),
            },
    {
        proof {
            use_type_invariant(&config.tasks);
        }
        let n = config.tasks.len();
        let mut graph = graph_new();
        let mut i: usize = 0;
        while i < n
            invariant
                n == config.tasks@.len(),
                n < u32::MAX,
                i <= n,
                graph_nodes(graph) == task_names(*config).take(i as int),
                graph_edges(graph) == Seq::<(int, int)>::empty(),
            decreases n - i,
        {
            let name = config.tasks.key_at(i).clone();
            graph_add_node(&mut graph, name);
            assert(task_names(*config).take(i + 1) =~= task_names(*config).take(i as int).push(
                config.tasks@[i as int].0,
            ));
            i = i + 1;
        }
        assert(task_names(*config).take(n as int) =~= task_names(*config));
        let mut i: usize = 0;
        while i < n
            invariant
                n == config.tasks@.len(),
                i <= n,
                dependency_edges(*config).len() < u32::MAX,
                keys_of(config.tasks@).no_duplicates(),
                graph_nodes(graph) == task_names(*config),
                graph_edges(graph) == edges_upto(*config, i as nat),
                forall|i2: int, j2: int|
                    0 <= i2 < i && 0 <= j2 < task_deps(*config, i2).len() ==> #[trigger] dep_known(
                        *config,
                        i2,
                        j2,
                    ),
            decreases n - i,
        {
            let task = config.tasks.value_at(i);
            let m = task.deps.len();
            let mut j: usize = 0;
            while j < m
                invariant
                    n == config.tasks@.len(),
                    i < n,
                    j <= m,
                    *task == config.tasks@[i as int].1,
                    m == task_deps(*config, i as int).len(),
                    dependency_edges(*config).len() < u32::MAX,
                    keys_of(config.tasks@).no_duplicates(),
                    graph_nodes(graph) == task_names(*config),
                    graph_edges(graph) == edges_upto(*config, i as nat) + deps_edges(
                        *config,
                        i as int,
                    ).take(j as int),
                    forall|i2: int, j2: int|
                        0 <= i2 < i && 0 <= j2 < task_deps(*config, i2).len()
                            ==> #[trigger] dep_known(*config, i2, j2),
                    forall|j2: int| 0 <= j2 < j ==> #[trigger] dep_known(*config, i as int, j2),
                decreases m - j,
            {
                let dep = &task.deps[j];
                assert(dep@ == task_deps(*config, i as int)[j as int]);
                match config.tasks.find(dep) {
                    Some(src) => {
                        proof {
                            let all = edges_upto(*config, (i + 1) as nat);
                            lemma_edges_upto_len_mono(*config, (i + 1) as nat, n as nat);
                            assert(all == edges_upto(*config, i as nat) + deps_edges(
                                *config,
                                i as int,
                            ));
                            assert(graph_edges(graph).len() < all.len());
                            assert(deps_edges(*config, i as int).take(j + 1) =~= deps_edges(
                                *config,
                                i as int,
                            ).take(j as int).push((src as int, i as int)));
                            assert(task_names(*config)[src as int] == dep@);
                        }
                        graph_add_edge(&mut graph, src, i);
                        assert(dep_known(*config, i as int, j as int));
                    },
                    None => {
                        let t = config.tasks.key_at(i).clone();
                        let d = dep.clone();
                        assert(first_unknown_dep(*config, i as int, j as int));
                        return Err(DagError::UnknownDependency { task: t, dependency: d });
                    },
                }
                j = j + 1;
            }
            assert(deps_edges(*config, i as int).take(m as int) =~= deps_edges(*config, i as int));
            i = i + 1;
        }
        assert(all_deps_known(*config));
        if graph_is_cyclic(&graph) {
            return Err(DagError::Cycle);
        }
        proof {
            lemma_edges_upto_in_range(*config, n as nat);
        }
        Ok(Dag { graph })
    }
}

/// A name is among the ready tasks exactly when some ready node carries it.
pub proof fn lemma_ready_upto_contains(
    nodes: Seq<Seq<char>>,
    edges: Seq<(int, int)>,
    completed: Seq<Seq<char>>,
    n: nat,
    x: Seq<char>,
)
    requires
        n <= nodes.len(),
    ensures
        ready_upto(nodes, edges, completed, n).contains(x) <==> exists|i: int|
            0 <= i < n && #[trigger] is_ready(nodes, edges, completed, i) && nodes[i] == x,
    decreases n,
{
    if n > 0 {
        let m = (n - 1) as nat;
        lemma_ready_upto_contains(nodes, edges, completed, m, x);
        let r = ready_upto(nodes, edges, completed, m);
        if is_ready(nodes, edges, completed, n - 1) {
            let r2 = r.push(nodes[n - 1]);
            assert(ready_upto(nodes, edges, completed, n) == r2);
            if r2.contains(x) {
                let k = choose|k: int| 0 <= k < r2.len() && r2[k] == x;
                if k < r.len() {
                    assert(r[k] == x);
                } else {
                    assert(is_ready(nodes, edges, completed, n - 1) && nodes[n - 1] == x);
                }
            }
            if exists|i: int| 0 <= i < n && #[trigger] is_ready(nodes, edges, completed, i) && nodes[i] == x {
                let i = choose|i: int| 0 <= i < n && #[trigger] is_ready(nodes, edges, completed, i) && nodes[i] == x;
                if i < n - 1 {
                    let k = choose|k: int| 0 <= k < r.len() && r[k] == x;
                    assert(r2[k] == x);
                } else {
                    assert(r2[r.len() as int] == x);
                }
            }
        } else {
            if exists|i: int| 0 <= i < n && #[trigger] is_ready(nodes, edges, completed, i) && nodes[i] == x {
                let i = choose|i: int| 0 <= i < n && #[trigger] is_ready(nodes, edges, completed, i) && nodes[i] == x;
                assert(i < n - 1);
            }
        }
    }
}

proof fn build_back_walk(
    nodes: Seq<Seq<char>>,
    edges: Seq<(int, int)>,
    completed: Seq<Seq<char>>,
    v: int,
    len: nat,
) -> (q: Seq<int>)
    requires
        edges_in_range(edges, nodes.len() as int),
        0 <= v < nodes.len(),
        !completed.contains(nodes[v]),
        forall|i: int| 0 <= i < nodes.len() ==> !#[trigger] is_ready(nodes, edges, completed, i),
    ensures
        q.len() == len + 1,
        q[0] == v,
        forall|k: int|
            0 <= k < q.len() ==> 0 <= #[trigger] q[k] < nodes.len() && !completed.contains(
                nodes[q[k]],
            ),
        forall|k: int| 0 <= k < len ==> #[trigger] edges.contains((q[k + 1], q[k])),
    decreases len,
{
    if len == 0 {
        seq![v]
    } else {
        let p = build_back_walk(nodes, edges, completed, v, (len - 1) as nat);
        let x = p[len - 1];
        assert(0 <= x < nodes.len() && !completed.contains(nodes[x]));
        assert(!is_ready(nodes, edges, completed, x));
        let u = choose|u: int| #[trigger] edges.contains((u, x)) && !completed.contains(nodes[u]);
        let e = choose|e: int| 0 <= e < edges.len() && edges[e] == (u, x);
        assert(0 <= edges[e].0 < nodes.len());
        let q = p.push(u);
        assert forall|k: int| 0 <= k < len implies #[trigger] edges.contains((q[k + 1], q[k])) by {
            if k < len - 1 {
                assert(q[k + 1] == p[k + 1] && q[k] == p[k]);
                assert(edges.contains((p[k + 1], p[k])));
            } else {
                assert(q[k + 1] == u && q[k] == x);
            }
        }
        assert forall|k: int| 0 <= k < q.len() implies 0 <= #[trigger] q[k] < nodes.len()
            && !completed.contains(nodes[q[k]]) by {
            if k < p.len() {
                assert(q[k] == p[k]);
            }
        }
        q
    }
}

/// In an acyclic graph, as long as some task has not completed, some task is ready: every
/// dependency of it has completed and it has not.
pub proof fn lemma_acyclic_has_ready(
    nodes: Seq<Seq<char>>,
    edges: Seq<(int, int)>,
    completed: Seq<Seq<char>>,
    v: int,
)
    requires
        edges_in_range(edges, nodes.len() as int),
        !has_cycle(edges),
        0 <= v < nodes.len(),
        !completed.contains(nodes[v]),
    ensures
        exists|i: int| 0 <= i < nodes.len() && #[trigger] is_ready(nodes, edges, completed, i),
{
    if forall|i: int| 0 <= i < nodes.len() ==> !#[trigger] is_ready(nodes, edges, completed, i) {
        let n = nodes.len() as int;
        let q = build_back_walk(nodes, edges, completed, v, n as nat);
        assert forall|x: int| q.to_set().contains(x) implies set_int_range(0, n).contains(x) by {
            let k = choose|k: int| 0 <= k < q.len() && q[k] == x;
            assert(0 <= q[k] < n);
        }
        lemma_int_range(0, n);
        lemma_len_subset(q.to_set(), set_int_range(0, n));
        if q.no_duplicates() {
            q.unique_seq_to_set();
            assert(false);
        }
        let (a, b) = choose|a: int, b: int|
            0 <= a < q.len() && 0 <= b < q.len() && a != b && q[a] == q[b];
        let lo = if a < b { a } else { b };
        let hi = if a < b { b } else { a };
        let path = Seq::new((hi - lo + 1) as nat, |k: int| q[hi - k]);
        assert forall|k: int| 0 <= k < path.len() - 1 implies #[trigger] edges.contains(
            (path[k], path[k + 1]),
        ) by {
            let j = hi - k - 1;
            assert(0 <= j < n);
            assert(edges.contains((q[j + 1], q[j])));
            assert(path[k] == q[j + 1] && path[k + 1] == q[j]);
        }
        assert(is_walk(edges, path));
        assert(path[0] == path[path.len() - 1]);
        assert(has_cycle(edges));
    }
}

/// In a valid DAG, as long as some task has not completed, the list of ready tasks is not
/// empty: a pipeline whose definition passed validation cannot stall.
pub proof fn lemma_valid_dag_has_ready_task(dag: Dag, completed: Seq<Seq<char>>, v: int)
    requires
        dag.wf(),
        0 <= v < dag.nodes().len(),
        !completed.contains(dag.nodes()[v]),
    ensures
        ready_tasks(dag.nodes(), dag.edges(), completed).len() > 0,
{
    lemma_acyclic_has_ready(dag.nodes(), dag.edges(), completed, v);
    let i = choose|i: int|
        0 <= i < dag.nodes().len() && #[trigger] is_ready(dag.nodes(), dag.edges(), completed, i);
    lemma_ready_upto_contains(
        dag.nodes(),
        dag.edges(),
        completed,
        dag.nodes().len(),
        dag.nodes()[i],
    );
}

} // verus!
