use crate::models::{entries_insert, lookup, StringMap};
use vstd::prelude::*;
use vstd::string::StringExecFns;

verus! {

/// The key under which a task's fingerprint is kept: the pipeline's name, a colon, and
/// the task's name.
pub open spec fn unique_key(pipeline_name: Seq<char>, task_id: Seq<char>) -> Seq<char> {
    pipeline_name + seq![':'] + task_id
}

/// Within one pipeline, different tasks never share a cache key.
pub proof fn lemma_unique_key_injective(pipeline_name: Seq<char>, t1: Seq<char>, t2: Seq<char>)
    requires
        unique_key(pipeline_name, t1) == unique_key(pipeline_name, t2),
    ensures
        t1 == t2,
{
    let p = pipeline_name + seq![':'];
    assert(unique_key(pipeline_name, t1) == p + t1);
    assert(unique_key(pipeline_name, t2) == p + t2);
    assert((p + t1).subrange(p.len() as int, (p + t1).len() as int) =~= t1);
    assert((p + t2).subrange(p.len() as int, (p + t2).len() as int) =~= t2);
}

/// The fingerprints of past task runs, by cache key.
pub struct CacheMetadata {
    pub entries: StringMap<String>,
}

impl Default for CacheMetadata {
    /// No fingerprint recorded.
    fn default() -> (m: Self)
        ensures
            m.entries@ == Seq::<(Seq<char>, String)>::empty(),
    {
        CacheMetadata { entries: StringMap::new() }
    }
}

impl CacheMetadata {
    /// The cache key of a task of a pipeline: `<pipeline>:<task>`.
    pub fn generate_unique_key(pipeline_name: &str, task_id: &str) -> (key: String)
        ensures
            key@ == unique_key(pipeline_name@, task_id@),
    {
        let mut key = pipeline_name.to_owned();
        key.append(":");
        key.append(task_id);
        proof {
            reveal_strlit(":");
        }
        assert(key@ =~= unique_key(pipeline_name@, task_id@));
        key
    }

    /// The fingerprint recorded under `key`, if any.
    pub fn stored_hash(&self, key: &String) -> (h: Option<&String>)
        ensures
            h matches Some(v) ==> lookup(self.entries@, key@) == Some(*v),
            h is None ==> lookup(self.entries@, key@) is None,
    {
        self.entries.get(key)
    }

    /// Records `hash` as the fingerprint under `key`, replacing any earlier one.
    pub fn record(&mut self, key: String, hash: String)
        ensures
            final(self).entries@ == entries_insert(old(self).entries@, key@, hash),
    {
        self.entries.insert(key, hash);
    }
}

} // verus!
