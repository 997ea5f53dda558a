use crate::engine::{engine_answers, pairs_view, FileEngine, OsFileEngine};
use crate::models::{keys_of, TaskDefinition};
use crate::text::{
    bytes_lt, lemma_lex_lt_asymmetric, lemma_lex_lt_irreflexive, lemma_lex_lt_total,
    lemma_lex_lt_transitive, lex_lt, split_whitespace, split_words,
};
use sha2::Digest;
use vstd::prelude::*;
use vstd::set_lib::{lemma_int_range, lemma_len_subset, set_int_range};
use vstd::utf8::{encode_utf8, encode_utf8_decode_utf8};

verus! {

/// The SHA-256 digest of `data`.
pub uninterp spec fn sha256(data: Seq<u8>) -> Seq<u8>;

/// `Sha256::digest` from sha2: the SHA-256 digest of `data`, 32 bytes long.
#[verifier::external_body]
fn sha256_digest(data: &[u8]) -> (d: Vec<u8>)
    ensures
        d@ == sha256(data@),
        d@.len() == 32,
{
    sha2::Sha256::digest(data).to_vec()
}

/// The lower-case hexadecimal digit for a value below sixteen.
pub open spec fn hex_digit(v: int) -> char {
    if v < 10 {
        (48 + v) as char
    } else {
        (87 + v) as char
    }
}

/// Two lower-case hexadecimal digits per byte, high half first.
pub open spec fn hex_lower(bytes: Seq<u8>) -> Seq<char>
    decreases bytes.len(),
{
    if bytes.len() == 0 {
        Seq::empty()
    } else {
        seq![hex_digit((bytes[0] / 16) as int), hex_digit((bytes[0] % 16) as int)] + hex_lower(
            bytes.drop_first(),
        )
    }
}

/// Hexadecimal takes two characters per byte.
pub proof fn lemma_hex_lower_len(bytes: Seq<u8>)
    ensures
        hex_lower(bytes).len() == 2 * bytes.len(),
    decreases bytes.len(),
{
    if bytes.len() > 0 {
        lemma_hex_lower_len(bytes.drop_first());
    }
}

/// `hex::encode` from hex: each byte as two lower-case hexadecimal digits, high half
/// first, in order.
#[verifier::external_body]
fn hex_encode(data: &[u8]) -> (s: String)
    ensures
        s@ == hex_lower(data@),
{
    hex::encode(data)
}

/// The bytes a task's fingerprint is taken over: its command, then the script the
/// command runs when that is a file on disk, then each input file in name order.
pub open spec fn fingerprint_data(cmd: Seq<char>, script: Option<Seq<u8>>, inputs: Seq<Seq<u8>>) -> Seq<
    u8,
> {
    encode_utf8(cmd) + match script {
        Some(b) => b,
        None => Seq::empty(),
    } + inputs.flatten()
}

/// A task's fingerprint: the SHA-256 digest of its fingerprint data, in hexadecimal.
pub open spec fn fingerprint(cmd: Seq<char>, script: Option<Seq<u8>>, inputs: Seq<Seq<u8>>) -> Seq<
    char,
> {
    hex_lower(sha256(fingerprint_data(cmd, script, inputs)))
}

proof fn lemma_flatten_same_shape(a: Seq<Seq<u8>>, b: Seq<Seq<u8>>)
    requires
        a.len() == b.len(),
        forall|i: int| 0 <= i < a.len() ==> #[trigger] a[i].len() == b[i].len(),
        a.flatten() == b.flatten(),
    ensures
        a == b,
    decreases a.len(),
{
    if a.len() > 0 {
        let fa = a.flatten();
        let fb = b.flatten();
        assert(fa == a[0] + a.drop_first().flatten());
        assert(fb == b[0] + b.drop_first().flatten());
        let n = a[0].len() as int;
        assert(a[0].len() == b[0].len());
        assert(fa.subrange(0, n) =~= a[0]);
        assert(fb.subrange(0, n) =~= b[0]);
        assert(fa.subrange(n, fa.len() as int) =~= a.drop_first().flatten());
        assert(fb.subrange(n, fb.len() as int) =~= b.drop_first().flatten());
        assert forall|i: int| 0 <= i < a.drop_first().len() implies #[trigger] a.drop_first()[i].len()
            == b.drop_first()[i].len() by {
            assert(a.drop_first()[i] == a[i + 1] && b.drop_first()[i] == b[i + 1]);
        }
        lemma_flatten_same_shape(a.drop_first(), b.drop_first());
        assert(a =~= b) by {
            assert forall|i: int| 0 <= i < a.len() implies a[i] == b[i] by {
                if i > 0 {
                    assert(a[i] == a.drop_first()[i - 1] && b[i] == b.drop_first()[i - 1]);
                }
            }
        }
    } else {
        assert(a =~= b);
    }
}

/// Every byte of every input enters the fingerprint data: inputs of the same sizes give
/// the same data only when they are equal, whatever offset a change sits at.
pub proof fn lemma_fingerprint_data_holds_every_byte(
    cmd: Seq<char>,
    script: Option<Seq<u8>>,
    a: Seq<Seq<u8>>,
    b: Seq<Seq<u8>>,
)
    requires
        a.len() == b.len(),
        forall|i: int| 0 <= i < a.len() ==> #[trigger] a[i].len() == b[i].len(),
        fingerprint_data(cmd, script, a) == fingerprint_data(cmd, script, b),
    ensures
        a == b,
{
    let head = encode_utf8(cmd) + match script {
        Some(x) => x,
        None => Seq::empty(),
    };
    let da = fingerprint_data(cmd, script, a);
    let db = fingerprint_data(cmd, script, b);
    assert(da == head + a.flatten());
    assert(db == head + b.flatten());
    assert(da.subrange(head.len() as int, da.len() as int) =~= a.flatten());
    assert(db.subrange(head.len() as int, db.len() as int) =~= b.flatten());
    lemma_flatten_same_shape(a, b);
}

pub open spec fn script_bytes(script: Option<Seq<u8>>) -> Seq<u8> {
    match script {
        Some(b) => b,
        None => Seq::empty(),
    }
}

/// The command, the script and every input each enter the fingerprint data in full:
/// parts of the same sizes give the same data only when they are all equal.
pub proof fn lemma_fingerprint_data_parts(
    c1: Seq<char>,
    s1: Option<Seq<u8>>,
    a: Seq<Seq<u8>>,
    c2: Seq<char>,
    s2: Option<Seq<u8>>,
    b: Seq<Seq<u8>>,
)
    requires
        encode_utf8(c1).len() == encode_utf8(c2).len(),
        s1 is Some == s2 is Some,
        script_bytes(s1).len() == script_bytes(s2).len(),
        a.len() == b.len(),
        forall|i: int| 0 <= i < a.len() ==> #[trigger] a[i].len() == b[i].len(),
        fingerprint_data(c1, s1, a) == fingerprint_data(c2, s2, b),
    ensures
        c1 == c2,
        s1 == s2,
        a == b,
{
    let d1 = fingerprint_data(c1, s1, a);
    let d2 = fingerprint_data(c2, s2, b);
    let e1 = encode_utf8(c1);
    let e2 = encode_utf8(c2);
    let x1 = script_bytes(s1);
    let x2 = script_bytes(s2);
    assert(d1 == e1 + x1 + a.flatten());
    assert(d2 == e2 + x2 + b.flatten());
    let l = e1.len() as int;
    let m = l + x1.len();
    assert(d1.subrange(0, l) =~= e1);
    assert(d2.subrange(0, l) =~= e2);
    assert(d1.subrange(l, m) =~= x1);
    assert(d2.subrange(l, m) =~= x2);
    assert(d1.subrange(m, d1.len() as int) =~= a.flatten());
    assert(d2.subrange(m, d2.len() as int) =~= b.flatten());
    if c1 != c2 {
        lemma_encode_injective(c1, c2);
    }
    lemma_flatten_same_shape(a, b);
}

/// The fingerprint data is the command's bytes, then the script, then each input in
/// full: its length is the sum of theirs.
pub proof fn lemma_fingerprint_data_len(cmd: Seq<char>, script: Option<Seq<u8>>, inputs: Seq<Seq<u8>>)
    ensures
        fingerprint_data(cmd, script, inputs).len() == encode_utf8(cmd).len() + match script {
            Some(x) => x.len(),
            None => 0,
        } + inputs.flatten().len(),
{
}

pub open spec fn bytes_views(v: Seq<Vec<u8>>) -> Seq<Seq<u8>> {
    v.map_values(|b: Vec<u8>| b@)
}

pub open spec fn opt_bytes(script: Option<&Vec<u8>>) -> Option<Seq<u8>> {
    match script {
        Some(b) => Some(b@),
        None => None,
    }
}

/// The UTF-8 bytes of the name of entry `i`.
pub open spec fn key_bytes(entries: Seq<(Seq<char>, String)>, i: int) -> Seq<u8> {
    encode_utf8(entries[i].0)
}

/// `order` lists the entries by name, each name strictly before the next in byte order.
pub open spec fn is_key_order(entries: Seq<(Seq<char>, String)>, order: Seq<int>) -> bool {
    &&& order.len() == entries.len()
    &&& forall|k: int| 0 <= k < order.len() ==> 0 <= #[trigger] order[k] < entries.len()
    &&& forall|a: int, b: int|
        0 <= a < b < order.len() ==> lex_lt(
            key_bytes(entries, #[trigger] order[a]),
            key_bytes(entries, #[trigger] order[b]),
        )
}

/// The (name, path) views of the entries.
pub open spec fn entry_views(entries: Seq<(Seq<char>, String)>) -> Seq<(Seq<char>, Seq<char>)> {
    entries.map_values(|e: (Seq<char>, String)| (e.0, e.1@))
}

/// The (name, path) views of the entries, taken in the given order.
pub open spec fn ordered_views(entries: Seq<(Seq<char>, String)>, order: Seq<int>) -> Seq<
    (Seq<char>, Seq<char>),
> {
    order.map_values(|k: int| (entries[k].0, entries[k].1@))
}

/// An order by name lists every entry.
proof fn lemma_key_order_covers(entries: Seq<(Seq<char>, String)>, order: Seq<int>, v: int)
    requires
        is_key_order(entries, order),
        0 <= v < entries.len(),
    ensures
        order.contains(v),
{
    let n = entries.len() as int;
    assert forall|a: int, b: int| 0 <= a < b < order.len() implies order[a] != order[b] by {
        assert(lex_lt(key_bytes(entries, order[a]), key_bytes(entries, order[b])));
        lemma_lex_lt_irreflexive(key_bytes(entries, order[a]));
    }
    assert(order.no_duplicates());
    order.unique_seq_to_set();
    if !order.contains(v) {
        let rest = set_int_range(0, n).remove(v);
        assert forall|x: int| order.to_set().contains(x) implies rest.contains(x) by {
            let k = choose|k: int| 0 <= k < order.len() && order[k] == x;
            assert(0 <= order[k] < n);
        }
        lemma_int_range(0, n);
        lemma_len_subset(order.to_set(), rest);
        assert(false);
    }
}

/// Entries whose names are distinct have distinct (name, path) views.
proof fn lemma_entry_views_unique(entries: Seq<(Seq<char>, String)>)
    requires
        keys_of(entries).no_duplicates(),
    ensures
        entry_views(entries).no_duplicates(),
{
    let ev = entry_views(entries);
    assert forall|a: int, b: int| 0 <= a < ev.len() && 0 <= b < ev.len() && a != b implies ev[a]
        != ev[b] by {
        assert(keys_of(entries)[a] == ev[a].0);
        assert(keys_of(entries)[b] == ev[b].0);
    }
}

/// Under a shared prefix, the entry at position `k` of one order by name sits at position
/// `k` or later in the other.
proof fn lemma_found_at_or_after(
    ea: Seq<(Seq<char>, String)>,
    oa: Seq<int>,
    eb: Seq<(Seq<char>, String)>,
    ob: Seq<int>,
    k: int,
)
    requires
        keys_of(ea).no_duplicates(),
        keys_of(eb).no_duplicates(),
        entry_views(ea).to_set() == entry_views(eb).to_set(),
        is_key_order(ea, oa),
        is_key_order(eb, ob),
        ea.len() == eb.len(),
        0 <= k < ea.len(),
        forall|j: int| 0 <= j < k ==> ordered_views(ea, oa)[j] == ordered_views(eb, ob)[j],
    ensures
        exists|j: int| k <= j < eb.len() && ordered_views(eb, ob)[j] == ordered_views(ea, oa)[k],
{
    let x = ordered_views(ea, oa);
    let y = ordered_views(eb, ob);
    let p = oa[k];
    assert(entry_views(ea)[p] == x[k]);
    assert(entry_views(ea).to_set().contains(x[k]));
    assert(entry_views(eb).to_set().contains(x[k]));
    let q = choose|q: int| 0 <= q < eb.len() && entry_views(eb)[q] == x[k];
    lemma_key_order_covers(eb, ob, q);
    let j = choose|j: int| 0 <= j < ob.len() && ob[j] == q;
    assert(y[j] == x[k]);
    if j < k {
        assert(x[j] == y[j]);
        assert(lex_lt(key_bytes(ea, oa[j]), key_bytes(ea, oa[k])));
        assert(ea[oa[j]].0 == x[j].0 && ea[oa[k]].0 == x[k].0);
        lemma_lex_lt_irreflexive(key_bytes(ea, oa[k]));
    }
}

/// Two orders by name of the same (name, path) pairs list them alike, whatever order the
/// pairs were inserted in: the inputs enter a fingerprint in the same order.
pub proof fn lemma_key_order_ignores_insertion_order(
    e1: Seq<(Seq<char>, String)>,
    o1: Seq<int>,
    e2: Seq<(Seq<char>, String)>,
    o2: Seq<int>,
)
    requires
        keys_of(e1).no_duplicates(),
        keys_of(e2).no_duplicates(),
        entry_views(e1).to_set() == entry_views(e2).to_set(),
        is_key_order(e1, o1),
        is_key_order(e2, o2),
    ensures
        ordered_views(e1, o1) == ordered_views(e2, o2),
{
    lemma_entry_views_unique(e1);
    lemma_entry_views_unique(e2);
    entry_views(e1).unique_seq_to_set();
    entry_views(e2).unique_seq_to_set();
    lemma_orders_agree(e1, o1, e2, o2, e1.len() as int);
    assert(ordered_views(e1, o1) =~= ordered_views(e2, o2));
}

proof fn lemma_orders_agree(
    e1: Seq<(Seq<char>, String)>,
    o1: Seq<int>,
    e2: Seq<(Seq<char>, String)>,
    o2: Seq<int>,
    m: int,
)
    requires
        keys_of(e1).no_duplicates(),
        keys_of(e2).no_duplicates(),
        entry_views(e1).to_set() == entry_views(e2).to_set(),
        is_key_order(e1, o1),
        is_key_order(e2, o2),
        e1.len() == e2.len(),
        0 <= m <= e1.len(),
    ensures
        forall|j: int| 0 <= j < m ==> ordered_views(e1, o1)[j] == ordered_views(e2, o2)[j],
    decreases m,
{
    if m > 0 {
        let k = m - 1;
        lemma_orders_agree(e1, o1, e2, o2, k);
        let x = ordered_views(e1, o1);
        let y = ordered_views(e2, o2);
        lemma_found_at_or_after(e1, o1, e2, o2, k);
        lemma_found_at_or_after(e2, o2, e1, o1, k);
        if x[k] != y[k] {
            let j = choose|j: int| k <= j < e2.len() && y[j] == x[k];
            let i = choose|i: int| k <= i < e1.len() && x[i] == y[k];
            assert(j > k && i > k);
            assert(lex_lt(key_bytes(e2, o2[k]), key_bytes(e2, o2[j])));
            assert(lex_lt(key_bytes(e1, o1[k]), key_bytes(e1, o1[i])));
            assert(e2[o2[j]].0 == x[k].0 && e2[o2[k]].0 == y[k].0);
            assert(e1[o1[i]].0 == y[k].0 && e1[o1[k]].0 == x[k].0);
            lemma_lex_lt_asymmetric(encode_utf8(x[k].0), encode_utf8(y[k].0));
        }
    }
}

fn append_bytes(buf: &mut Vec<u8>, src: &[u8])
    ensures
        final(buf)@ == old(buf)@ + src@,
{
    let ghost start = buf@;
    let n = src.len();
    let mut i: usize = 0;
    while i < n
        invariant
            n == src@.len(),
            i <= n,
            buf@ == start + src@.take(i as int),
        decreases n - i,
    {
        buf.push(src[i]);
        assert(src@.take(i + 1) =~= src@.take(i as int).push(src@[i as int]));
        assert(buf@ =~= start + src@.take(i + 1));
        i = i + 1;
    }
    assert(src@.take(n as int) =~= src@);
}

/// Distinct names have distinct UTF-8 encodings.
proof fn lemma_encode_injective(a: Seq<char>, b: Seq<char>)
    requires
        a != b,
    ensures
        encode_utf8(a) != encode_utf8(b),
{
    encode_utf8_decode_utf8(a);
    encode_utf8_decode_utf8(b);
}

/// Computes task fingerprints and checks that a task's outputs are on disk.
pub struct CacheEngine;

impl CacheEngine {
    /// Whether every declared output is on disk, given whether each one is (in declaration
    /// order). A task that declares no output never counts as having its outputs.
    pub fn outputs_present_given(task_def: &TaskDefinition, on_disk: &Vec<bool>) -> (present: bool)
        requires
            on_disk@.len() == task_def.outputs@.len(),
        ensures
            present == (task_def.outputs@.len() > 0 && forall|i: int|
                0 <= i < on_disk@.len() ==> on_disk@[i]),
    {
        if task_def.outputs.is_empty() {
            return false;
        }
        let n = on_disk.len();
        let mut i: usize = 0;
        while i < n
            invariant
                n == on_disk@.len(),
                i <= n,
                forall|j: int| 0 <= j < i ==> on_disk@[j],
            decreases n - i,
        {
            if !on_disk[i] {
                return false;
            }
            i = i + 1;
        }
        true
    }

    /// Whether all the task's declared outputs exist on disk; false for a task that
    /// declares none. The disk is asked about each output's own path, and the answer is
    /// true exactly when every one of them was found.
    pub fn verify_outputs_present(task_def: &TaskDefinition) -> (present: bool)
        ensures
            present ==> task_def.outputs@.len() > 0,
            exists|on_disk: Seq<bool>|
                #[trigger] engine_answers(OsFileEngine, task_def.outputs@, on_disk) && present == (
                task_def.outputs@.len() > 0 && forall|i: int| 0 <= i < on_disk.len() ==> on_disk[i]),
    {
        let n = task_def.outputs.len();
        let mut on_disk: Vec<bool> = Vec::new();
        let mut i: usize = 0;
        while i < n
            invariant
                n == task_def.outputs@.len(),
                i <= n,
                on_disk@.len() == i,
                forall|j: int|
                    0 <= j < i ==> OsFileEngine.reports(task_def.outputs@[j].1@, #[trigger] on_disk@[j]),
            decreases n - i,
        {
            let found = OsFileEngine.file_exists(task_def.outputs.value_at(i).as_str());
            on_disk.push(found);
            i = i + 1;
        }
        let present = Self::outputs_present_given(task_def, &on_disk);
        assert(engine_answers(OsFileEngine, task_def.outputs@, on_disk@));
        present
    }

    /// The first word of the task's command: the script it runs, which is hashed along
    /// with the command when it is a file on disk.
    pub fn script_candidate(task_def: &TaskDefinition) -> (script: Option<String>)
        ensures
            match script {
                Some(w) => split_whitespace(task_def.cmd@).len() > 0 && w@ == split_whitespace(
                    task_def.cmd@,
                )[0],
                None => split_whitespace(task_def.cmd@).len() == 0,
            },
    {
        let mut words = split_words(task_def.cmd.as_str());
        if words.len() == 0 {
            None
        } else {
            Some(words.remove(0))
        }
    }

    /// The task's inputs as (name, path) pairs, ordered by name as Rust orders strings:
    /// the order in which input files enter the fingerprint.
    pub fn inputs_in_key_order(task_def: &TaskDefinition) -> (ordered: Vec<(String, String)>)
        ensures
            exists|order: Seq<int>|
                {
                    &&& #[trigger] is_key_order(task_def.inputs@, order)
                    &&& ordered@.len() == order.len()
                    &&& pairs_view(ordered@) == ordered_views(task_def.inputs@, order)
                    &&& forall|k: int|
                        0 <= k < order.len() ==> ordered@[k].0@ == task_def.inputs@[order[k]].0
                            && ordered@[k].1@ == task_def.inputs@[order[k]].1@
                },
    {
        proof {
            use_type_invariant(&task_def.inputs);
        }
        let ghost entries = task_def.inputs@;
        let n = task_def.inputs.len();
        let mut order: Vec<usize> = Vec::new();
        let mut i: usize = 0;
        while i < n
            invariant
                n == entries.len(),
                entries == task_def.inputs@,
                keys_of(entries).no_duplicates(),
                i <= n,
                order@.len() == i,
                forall|k: int| 0 <= k < order@.len() ==> #[trigger] order@[k] < i,
                forall|a: int, b: int|
                    0 <= a < b < order@.len() ==> lex_lt(
                        key_bytes(entries, #[trigger] order@[a] as int),
                        key_bytes(entries, #[trigger] order@[b] as int),
                    ),
            decreases n - i,
        {
            let new_key = task_def.inputs.key_at(i).as_str().as_bytes();
            let len = order.len();
            let mut p: usize = 0;
            while p < len && bytes_lt(
                task_def.inputs.key_at(order[p]).as_str().as_bytes(),
                new_key,
            )
                invariant
                    len == order@.len(),
                    n == entries.len(),
                    entries == task_def.inputs@,
                    i < n,
                    new_key@ == key_bytes(entries, i as int),
                    p <= len,
                    forall|k: int| 0 <= k < order@.len() ==> #[trigger] order@[k] < i,
                    forall|a: int|
                        0 <= a < p ==> lex_lt(
                            key_bytes(entries, #[trigger] order@[a] as int),
                            key_bytes(entries, i as int),
                        ),
                decreases len - p,
            {
                p = p + 1;
            }
            let ghost old_order = order@;
            proof {
                if p < len {
                    let q = old_order[p as int] as int;
                    assert(!lex_lt(key_bytes(entries, q), key_bytes(entries, i as int)));
                    assert(q != i);
                    assert(keys_of(entries)[q] == entries[q].0);
                    assert(keys_of(entries)[i as int] == entries[i as int].0);
                    lemma_encode_injective(entries[q].0, entries[i as int].0);
                    lemma_lex_lt_total(key_bytes(entries, q), key_bytes(entries, i as int));
                    assert forall|b: int| p < b < len implies lex_lt(
                        key_bytes(entries, i as int),
                        key_bytes(entries, old_order[b] as int),
                    ) by {
                        assert(lex_lt(key_bytes(entries, q), key_bytes(entries, old_order[b] as int)));
                        lemma_lex_lt_transitive(
                            key_bytes(entries, i as int),
                            key_bytes(entries, q),
                            key_bytes(entries, old_order[b] as int),
                        );
                    }
                }
            }
            order.insert(p, i);
            proof {
                let no = order@;
                assert(no =~= old_order.insert(p as int, i));
                assert forall|a: int, b: int| 0 <= a < b < no.len() implies lex_lt(
                    key_bytes(entries, #[trigger] no[a] as int),
                    key_bytes(entries, #[trigger] no[b] as int),
                ) by {
                    if b < p {
                        assert(no[a] == old_order[a] && no[b] == old_order[b]);
                    } else if b == p {
                        assert(no[a] == old_order[a]);
                    } else if a < p {
                        assert(no[a] == old_order[a] && no[b] == old_order[b - 1]);
                        assert(lex_lt(
                            key_bytes(entries, old_order[a] as int),
                            key_bytes(entries, old_order[b - 1] as int),
                        ));
                    } else if a == p {
                        assert(no[b] == old_order[b - 1]);
                        if b - 1 == p {
                            let q = old_order[p as int] as int;
                            assert(!lex_lt(key_bytes(entries, q), key_bytes(entries, i as int)));
                            assert(lex_lt(key_bytes(entries, i as int), key_bytes(entries, q)));
                        }
                    } else {
                        assert(no[a] == old_order[a - 1] && no[b] == old_order[b - 1]);
                        assert(lex_lt(
                            key_bytes(entries, old_order[a - 1] as int),
                            key_bytes(entries, old_order[b - 1] as int),
                        ));
                    }
                }
                assert forall|k: int| 0 <= k < no.len() implies #[trigger] no[k] < i + 1 by {
                    if k < p {
                        assert(no[k] == old_order[k]);
                    } else if k > p {
                        assert(no[k] == old_order[k - 1]);
                    }
                }
            }
            i = i + 1;
        }
        let ghost order_int = order@.map_values(|x: usize| x as int);
        let mut ordered: Vec<(String, String)> = Vec::new();
        let mut k: usize = 0;
        while k < n
            invariant
                n == entries.len(),
                entries == task_def.inputs@,
                order@.len() == n,
                order_int == order@.map_values(|x: usize| x as int),
                forall|j: int| 0 <= j < order@.len() ==> #[trigger] order@[j] < n,
                k <= n,
                ordered@.len() == k,
                forall|j: int|
                    0 <= j < k ==> ordered@[j].0@ == entries[order_int[j]].0 && ordered@[j].1@
                        == entries[order_int[j]].1@,
            decreases n - k,
        {
            let idx = order[k];
            let name = task_def.inputs.key_at(idx).clone();
            let path = task_def.inputs.value_at(idx).clone();
            ordered.push((name, path));
            k = k + 1;
        }
        assert(is_key_order(entries, order_int));
        assert(pairs_view(ordered@) =~= ordered_views(entries, order_int));
        ordered
    }

    /// The fingerprint of a task with command `cmd`, given the contents of its script (when
    /// that is a file on disk) and of its input files in name order.
    pub fn fingerprint_from_contents(cmd: &str, script: Option<&Vec<u8>>, inputs: &Vec<Vec<u8>>) -> (fp: String)
        ensures
            fp@ == fingerprint(cmd@, opt_bytes(script), bytes_views(inputs@)),
            fp@.len() == 64,
    {
        let mut data: Vec<u8> = Vec::new();
        append_bytes(&mut data, cmd.as_bytes());
        match script {
            Some(b) => append_bytes(&mut data, b.as_slice()),
            None => {},
        }
        let ghost head = data@;
        let n = inputs.len();
        let mut i: usize = 0;
        while i < n
            invariant
                n == inputs@.len(),
                i <= n,
                data@ == head + bytes_views(inputs@).take(i as int).flatten(),
            decreases n - i,
        {
            append_bytes(&mut data, inputs[i].as_slice());
            proof {
                let bv = bytes_views(inputs@);
                assert(bv.take(i + 1) =~= bv.take(i as int) + seq![bv[i as int]]);
                vstd::seq_lib::lemma_flatten_concat(bv.take(i as int), seq![bv[i as int]]);
                seq![bv[i as int]].lemma_flatten_one_element();
            }
            i = i + 1;
        }
        assert(bytes_views(inputs@).take(n as int) =~= bytes_views(inputs@));
        let digest = sha256_digest(data.as_slice());
        proof {
            lemma_hex_lower_len(digest@);
        }
        hex_encode(digest.as_slice())
    }
}

} // verus!
