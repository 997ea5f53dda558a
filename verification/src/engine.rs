use crate::models::{StringMap, TaskDefinition};
use crate::text::{split_whitespace, split_words, strings_view, to_uppercase, uppercase};
use vstd::prelude::*;
use vstd::string::StringExecFns;

verus! {

/// Access to the file system that the runner checks task inputs against.
pub trait FileEngine {
    /// `found` is an answer the engine may give when asked about `path`. An engine that
    /// says nothing of its answers leaves this true of every answer.
    open spec fn reports(&self, path: Seq<char>, found: bool) -> bool {
        true
    }

    /// Whether `path` names a file; the answer is one the engine reports for it.
    fn file_exists(&self, path: &str) -> (found: bool)
        ensures
            self.reports(path@, found),
    ;
}

/// The file system of the machine the pipeline runs on.
pub struct OsFileEngine;

impl FileEngine for OsFileEngine {
    /// What the disk holds is not known here: an answer is taken as the disk gave it for
    /// that path. Outside this module, which answers the disk gave is left open.
    closed spec fn reports(&self, path: Seq<char>, found: bool) -> bool {
        true
    }

    fn file_exists(&self, path: &str) -> (found: bool) {
        path_exists(path)
    }
}

/// `on_disk` holds, for each entry in order, an answer the engine reports for its path.
pub open spec fn engine_answers<F: FileEngine>(
    engine: F,
    entries: Seq<(Seq<char>, String)>,
    on_disk: Seq<bool>,
) -> bool {
    &&& on_disk.len() == entries.len()
    &&& forall|i: int| 0 <= i < entries.len() ==> engine.reports(entries[i].1@, #[trigger] on_disk[i])
}

/// `std::path::Path::exists`: whether `path` names something on disk. Nothing is stated
/// of the answer, which depends on the file system at the moment of the call.
#[verifier::external_body]
pub(crate) fn path_exists(path: &str) -> bool {
    std::path::Path::new(path).exists()
}

/// The environment variables a task receives: its name, then one per declared input,
/// then one per declared output.
pub open spec fn task_env(task_id: Seq<char>, task: TaskDefinition) -> Seq<(Seq<char>, Seq<char>)> {
    seq![("TASK_NAME"@, task_id)] + named_paths_env("IN_"@, task.inputs@) + named_paths_env(
        "OUT_"@,
        task.outputs@,
    )
}

/// One variable per entry: the prefix and the upper-cased name, set to the path.
pub open spec fn named_paths_env(prefix: Seq<char>, entries: Seq<(Seq<char>, String)>) -> Seq<
    (Seq<char>, Seq<char>),
> {
    entries.map_values(|e: (Seq<char>, String)| (prefix + uppercase(e.0), e.1@))
}

pub open spec fn pairs_view(v: Seq<(String, String)>) -> Seq<(Seq<char>, Seq<char>)> {
    v.map_values(|p: (String, String)| (p.0@, p.1@))
}

/// How to start a task's process: the program, its arguments, and the environment
/// variables to set.
pub struct CommandPlan {
    pub program: String,
    pub args: Vec<String>,
    pub env: Vec<(String, String)>,
}

/// Appends one variable per entry of `paths`, named by `prefix` and the upper-cased name.
fn push_path_vars(env: &mut Vec<(String, String)>, prefix: &str, paths: &StringMap<String>)
    ensures
        pairs_view(final(env)@) == pairs_view(old(env)@) + named_paths_env(prefix@, paths@),
{
    let n = paths.len();
    let ghost start = pairs_view(env@);
    let mut i: usize = 0;
    while i < n
        invariant
            n == paths@.len(),
            i <= n,
            pairs_view(env@) == start + named_paths_env(prefix@, paths@).take(i as int),
        decreases n - i,
    {
        let mut var = prefix.to_owned();
        let upper = to_uppercase(paths.key_at(i).as_str());
        var.append(upper.as_str());
        let value = paths.value_at(i).clone();
        assert(var@ == prefix@ + uppercase(paths@[i as int].0));
        assert(value@ == paths@[i as int].1@);
        let ghost before = env@;
        env.push((var, value));
        assert(pairs_view(env@) =~= pairs_view(before).push(
            (prefix@ + uppercase(paths@[i as int].0), paths@[i as int].1@),
        ));
        assert(named_paths_env(prefix@, paths@).take(i + 1) =~= named_paths_env(
            prefix@,
            paths@,
        ).take(i as int).push((prefix@ + uppercase(paths@[i as int].0), paths@[i as int].1@)));
        assert(pairs_view(env@) =~= start + named_paths_env(prefix@, paths@).take(i + 1));
        i = i + 1;
    }
    assert(named_paths_env(prefix@, paths@).take(n as int) =~= named_paths_env(prefix@, paths@));
}

/// Works out how to run a task: the first word of its command is the program and the
/// other words its arguments; the environment names the task and every declared input
/// (`IN_<NAME>`) and output (`OUT_<NAME>`) path. A command with no word is refused.
pub fn plan_command(task_id: &str, task_def: &TaskDefinition) -> (r: Result<CommandPlan, String>)
    ensures
        match r {
            Ok(plan) => {
                let words = split_whitespace(task_def.cmd@);
                &&& words.len() > 0
                &&& plan.program@ == words[0]
                &&& strings_view(plan.args@) == words.drop_first()
                &&& pairs_view(plan.env@) == task_env(task_id@, *task_def)
            },
            Err(msg) => split_whitespace(task_def.cmd@).len() == 0 && msg@ == "Empty command for task '"@
                + task_id@ + "'"@,
        },
{
    let mut words = split_words(task_def.cmd.as_str());
    if words.len() == 0 {
        let mut msg = "Empty command for task '".to_owned();
        msg.append(task_id);
        msg.append("'");
        return Err(msg);
    }
    let program = words.remove(0);
    assert(strings_view(words@) =~= split_whitespace(task_def.cmd@).drop_first());
    let mut env: Vec<(String, String)> = Vec::new();
    env.push(("TASK_NAME".to_owned(), task_id.to_owned()));
    push_path_vars(&mut env, "IN_", &task_def.inputs);
    push_path_vars(&mut env, "OUT_", &task_def.outputs);
    assert(pairs_view(env@) =~= task_env(task_id@, *task_def));
    Ok(CommandPlan { program, args: words, env })
}

} // verus!
