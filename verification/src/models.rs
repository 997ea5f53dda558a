use vstd::prelude::*;

verus! {

/// The keys of a map's entries, in entry order.
pub open spec fn keys_of<V>(entries: Seq<(Seq<char>, V)>) -> Seq<Seq<char>> {
    entries.map_values(|e: (Seq<char>, V)| e.0)
}

/// The position of `key` among the entries (meaningful only where the key occurs).
pub open spec fn key_index<V>(entries: Seq<(Seq<char>, V)>, key: Seq<char>) -> int {
    choose|i: int| 0 <= i < entries.len() && entries[i].0 == key
}

/// What a map with these entries holds under `key`.
pub open spec fn lookup<V>(entries: Seq<(Seq<char>, V)>, key: Seq<char>) -> Option<V> {
    if keys_of(entries).contains(key) {
        Some(entries[key_index(entries, key)].1)
    } else {
        None
    }
}

/// The entries after writing `value` under `key`: the old entry is replaced in place,
/// or a new one goes to the end.
pub open spec fn entries_insert<V>(entries: Seq<(Seq<char>, V)>, key: Seq<char>, value: V) -> Seq<
    (Seq<char>, V),
> {
    if keys_of(entries).contains(key) {
        entries.update(key_index(entries, key), (key, value))
    } else {
        entries.push((key, value))
    }
}

/// A read gives back the last write under the same key, and what other keys hold is
/// left as it was (for entries whose keys are distinct, as every map's are).
pub proof fn lemma_lookup_after_insert<V>(
    entries: Seq<(Seq<char>, V)>,
    key: Seq<char>,
    value: V,
    other: Seq<char>,
)
    requires
        keys_of(entries).no_duplicates(),
    ensures
        lookup(entries_insert(entries, key, value), key) == Some(value),
        other != key ==> lookup(entries_insert(entries, key, value), other) == lookup(
            entries,
            other,
        ),
        keys_of(entries_insert(entries, key, value)).no_duplicates(),
{
    let ks = keys_of(entries);
    let after = entries_insert(entries, key, value);
    let ka = keys_of(after);
    if ks.contains(key) {
        let i = key_index(entries, key);
        let j0 = choose|j: int| 0 <= j < ks.len() && ks[j] == key;
        assert(entries[j0].0 == key);
        assert(after == entries.update(i, (key, value)));
        assert(ka =~= ks);
    } else {
        assert(after == entries.push((key, value)));
        assert(ka =~= ks.push(key));
        assert forall|a: int, b: int| 0 <= a < b < ka.len() implies ka[a] != ka[b] by {
            if b == ka.len() - 1 {
                assert(ks[a] == ka[a]);
            }
        }
    }
    let ik = if ks.contains(key) { key_index(entries, key) } else { after.len() - 1 };
    assert(0 <= ik < after.len() && after[ik] == (key, value));
    assert(ka[ik] == key);
    assert(ka.contains(key));
    let ia = key_index(after, key);
    assert(0 <= ia < after.len() && after[ia].0 == key);
    assert(ka[ia] == key);
    assert(ia == ik);
    if other != key {
        if ks.contains(other) {
            let io = key_index(entries, other);
            assert(ka[io] == other);
            let ja = key_index(after, other);
            assert(ka[ja] == other);
            assert(ja == io);
        }
        if ka.contains(other) {
            let ja = key_index(after, other);
            assert(ka[ja] == other);
            assert(ks[ja] == other);
        }
    }
}

/// A map from names to values that keeps its entries in insertion order,
/// with no name occurring twice.
pub struct StringMap<V> {
    entries: Vec<(String, V)>,
}

impl<V> View for StringMap<V> {
    type V = Seq<(Seq<char>, V)>;

    closed spec fn view(&self) -> Seq<(Seq<char>, V)> {
        self.entries@.map_values(|e: (String, V)| (e.0@, e.1))
    }
}

impl<V> StringMap<V> {
    /// No key occurs twice.
    #[verifier::type_invariant]
    pub open spec fn keys_unique(self) -> bool {
        keys_of(self@).no_duplicates()
    }

    /// An empty map.
    pub fn new() -> (m: Self)
        ensures
            m@ == Seq::<(Seq<char>, V)>::empty(),
    {
        let m = StringMap { entries: Vec::new() };
        assert(m@ =~= Seq::<(Seq<char>, V)>::empty());
        m
    }

    pub fn len(&self) -> (n: usize)
        ensures
            n == self@.len(),
    {
        self.entries.len()
    }

    pub fn is_empty(&self) -> (b: bool)
        ensures
            b == (self@.len() == 0),
    {
        self.entries.len() == 0
    }

    pub fn key_at(&self, i: usize) -> (k: &String)
        requires
            i < self@.len(),
        ensures
            k@ == self@[i as int].0,
    {
        &self.entries[i].0
    }

    pub fn value_at(&self, i: usize) -> (v: &V)
        requires
            i < self@.len(),
        ensures
            *v == self@[i as int].1,
    {
        &self.entries[i].1
    }

    /// The position of `key`, if the map holds it.
    pub fn find(&self, key: &String) -> (r: Option<usize>)
        ensures
            r matches Some(i) ==> i < self@.len() && self@[i as int].0 == key@ && i == key_index(
                self@,
                key@,
            ),
            r is None <==> !keys_of(self@).contains(key@),
    {
        proof {
            use_type_invariant(self);
        }
        let n = self.entries.len();
        let mut i: usize = 0;
        while i < n
            invariant
                n == self@.len(),
                i <= n,
                forall|j: int| 0 <= j < i ==> self@[j].0 != key@,
                keys_of(self@).no_duplicates(),
            decreases n - i,
        {
            if self.entries[i].0 == *key {
                proof {
                    let ks = keys_of(self@);
                    assert(ks[i as int] == key@);
                    let k = key_index(self@, key@);
                    assert(0 <= k < self@.len() && self@[k].0 == key@);
                    assert(ks[k] == key@);
                    assert(ks.no_duplicates());
                    assert(k == i as int);
                }
                return Some(i);
            }
            i = i + 1;
        }
        proof {
            if keys_of(self@).contains(key@) {
                let j = choose|j: int| 0 <= j < keys_of(self@).len() && keys_of(self@)[j] == key@;
                assert(self@[j].0 == key@);
            }
        }
        None
    }

    pub fn contains_key(&self, key: &String) -> (b: bool)
        ensures
            b == keys_of(self@).contains(key@),
    {
        self.find(key).is_some()
    }

    /// What the map holds under `key`.
    pub fn get(&self, key: &String) -> (r: Option<&V>)
        ensures
            r matches Some(v) ==> lookup(self@, key@) == Some(*v),
            r is None ==> lookup(self@, key@) is None,
    {
        match self.find(key) {
            Some(i) => Some(&self.entries[i].1),
            None => None,
        }
    }

    /// Writes `value` under `key` and hands back what was there before.
    pub fn insert(&mut self, key: String, value: V) -> (old_value: Option<V>)
        ensures
            final(self)@ == entries_insert(old(self)@, key@, value),
            old_value == lookup(old(self)@, key@),
    {
        proof {
            use_type_invariant(&*self);
        }
        let ghost old_view = self@;
        let found = self.find(&key);
        let mut entries: Vec<(String, V)> = Vec::new();
        std::mem::swap(&mut entries, &mut self.entries);
        assert(entries@.map_values(|e: (String, V)| (e.0@, e.1)) == old_view);
        match found {
            Some(i) => {
                let mut pair = (key, value);
                entries.set_and_swap(i, &mut pair);
                proof {
                    let nv = entries@.map_values(|e: (String, V)| (e.0@, e.1));
                    assert(nv =~= old_view.update(i as int, (key@, value)));
                    let ks = keys_of(nv);
                    let oks = keys_of(old_view);
                    assert(ks =~= oks);
                }
                self.entries = entries;
                Some(pair.1)
            },
            None => {
                let ghost kv = key@;
                entries.push((key, value));
                proof {
                    let nv = entries@.map_values(|e: (String, V)| (e.0@, e.1));
                    assert(nv =~= old_view.push((kv, value)));
                    let ks = keys_of(nv);
                    let oks = keys_of(old_view);
                    assert(ks =~= oks.push(kv));
                    assert forall|a: int, b: int| 0 <= a < b < ks.len() implies ks[a] != ks[b] by {
                        if b == ks.len() - 1 {
                            assert(oks[a] == ks[a]);
                        }
                    }
                }
                self.entries = entries;
                None
            },
        }
    }
}

impl<V: Clone> Clone for StringMap<V> {
    /// A copy with the same keys in the same order, each value a clone of the original's.
    fn clone(&self) -> (c: Self)
        ensures
            keys_of(c@) == keys_of(self@),
            c@.len() == self@.len(),
            forall|i: int| 0 <= i < self@.len() ==> cloned::<V>(#[trigger] self@[i].1, c@[i].1),
    {
        proof {
            use_type_invariant(self);
        }
        let n = self.entries.len();
        let mut entries: Vec<(String, V)> = Vec::new();
        let mut i: usize = 0;
        while i < n
            invariant
                n == self@.len(),
                i <= n,
                entries@.len() == i,
                forall|j: int| 0 <= j < i ==> #[trigger] entries@[j].0@ == self@[j].0,
                forall|j: int| 0 <= j < i ==> cloned::<V>(self@[j].1, #[trigger] entries@[j].1),
            decreases n - i,
        {
            let k = self.entries[i].0.clone();
            let v = self.entries[i].1.clone();
            assert(cloned::<V>(self@[i as int].1, v));
            entries.push((k, v));
            i = i + 1;
        }
        assert(keys_of(entries@.map_values(|e: (String, V)| (e.0@, e.1))) =~= keys_of(self@));
        StringMap { entries }
    }
}

/// What a task runs, what it waits for, and the files it reads and writes.
#[derive(Clone)]
pub struct TaskDefinition {
    pub cmd: String,
    pub deps: Vec<String>,
    pub retries: u32,
    pub timeout_secs: Option<u64>,
    pub inputs: StringMap<String>,
    pub outputs: StringMap<String>,
}

/// The names of a task's dependencies, in the order they are declared.
pub open spec fn deps_view(task: TaskDefinition) -> Seq<Seq<char>> {
    task.deps@.map_values(|d: String| d@)
}

/// A named pipeline: its tasks by name.
pub struct PipelineConfig {
    pub name: String,
    pub tasks: StringMap<TaskDefinition>,
}

/// The names of the pipeline's tasks, in order.
pub open spec fn task_names(config: PipelineConfig) -> Seq<Seq<char>> {
    keys_of(config.tasks@)
}

/// The dependencies that task `i` declares.
pub open spec fn task_deps(config: PipelineConfig, i: int) -> Seq<Seq<char>> {
    deps_view(config.tasks@[i].1)
}

} // verus!
