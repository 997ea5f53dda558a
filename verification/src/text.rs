use vstd::prelude::*;
use vstd::string::StrSliceExecFns;

verus! {

/// `a` comes strictly before `b` in lexicographic byte order: the order in which Rust
/// compares strings.
pub open spec fn lex_lt(a: Seq<u8>, b: Seq<u8>) -> bool
    decreases a.len(),
{
    if a.len() == 0 {
        b.len() > 0
    } else if b.len() == 0 {
        false
    } else if a[0] < b[0] {
        true
    } else if a[0] > b[0] {
        false
    } else {
        lex_lt(a.drop_first(), b.drop_first())
    }
}

pub proof fn lemma_lex_lt_irreflexive(a: Seq<u8>)
    ensures
        !lex_lt(a, a),
    decreases a.len(),
{
    if a.len() > 0 {
        lemma_lex_lt_irreflexive(a.drop_first());
    }
}

pub proof fn lemma_lex_lt_transitive(a: Seq<u8>, b: Seq<u8>, c: Seq<u8>)
    requires
        lex_lt(a, b),
        lex_lt(b, c),
    ensures
        lex_lt(a, c),
    decreases a.len(),
{
    if a.len() > 0 && b.len() > 0 && c.len() > 0 {
        if a[0] == b[0] && b[0] == c[0] {
            lemma_lex_lt_transitive(a.drop_first(), b.drop_first(), c.drop_first());
        }
    }
}

pub proof fn lemma_lex_lt_total(a: Seq<u8>, b: Seq<u8>)
    requires
        a != b,
    ensures
        lex_lt(a, b) || lex_lt(b, a),
    decreases a.len(),
{
    if a.len() == 0 {
        assert(b.len() > 0) by {
            if b.len() == 0 {
                assert(a =~= b);
            }
        }
    } else if b.len() > 0 && a[0] == b[0] {
        if a.drop_first() == b.drop_first() {
            assert(a =~= seq![a[0]] + a.drop_first());
            assert(b =~= seq![b[0]] + b.drop_first());
        }
        lemma_lex_lt_total(a.drop_first(), b.drop_first());
    }
}

pub proof fn lemma_lex_lt_asymmetric(a: Seq<u8>, b: Seq<u8>)
    requires
        lex_lt(a, b),
    ensures
        !lex_lt(b, a),
{
    if lex_lt(b, a) {
        lemma_lex_lt_transitive(a, b, a);
        lemma_lex_lt_irreflexive(a);
    }
}

/// Compares two byte strings in lexicographic order.
pub fn bytes_lt(a: &[u8], b: &[u8]) -> (lt: bool)
    ensures
        lt == lex_lt(a@, b@),
{
    let n = a.len();
    let m = b.len();
    let mut i: usize = 0;
    assert(a@.skip(0) =~= a@ && b@.skip(0) =~= b@);
    while i < n && i < m
        invariant
            n == a@.len(),
            m == b@.len(),
            i <= n,
            i <= m,
            lex_lt(a@, b@) == lex_lt(a@.skip(i as int), b@.skip(i as int)),
        decreases n - i,
    {
        if a[i] < b[i] {
            return true;
        }
        if a[i] > b[i] {
            return false;
        }
        assert(a@.skip(i as int).drop_first() =~= a@.skip(i + 1));
        assert(b@.skip(i as int).drop_first() =~= b@.skip(i + 1));
        i = i + 1;
    }
    i < m
}

/// The characters that Rust's `char::is_whitespace` accepts: those with the Unicode
/// `White_Space` property.
pub open spec fn is_whitespace_char(c: char) -> bool {
    let v = c as u32;
    ||| 9 <= v <= 13
    ||| v == 32
    ||| v == 0x85
    ||| v == 0xA0
    ||| v == 0x1680
    ||| 0x2000 <= v <= 0x200A
    ||| v == 0x2028
    ||| v == 0x2029
    ||| v == 0x202F
    ||| v == 0x205F
    ||| v == 0x3000
}

/// Among ASCII characters, only space and the controls tab, line feed, vertical tab,
/// form feed and carriage return are whitespace; among the first 256 code points, also
/// next-line (U+0085) and no-break space (U+00A0).
pub proof fn lemma_whitespace_latin1(c: char)
    ensures
        (c as u32) < 128 ==> (is_whitespace_char(c) <==> (c as u32 == 32 || 9 <= c as u32 <= 13)),
        (c as u32) < 256 ==> (is_whitespace_char(c) <==> (c as u32 == 32 || 9 <= c as u32 <= 13
            || c as u32 == 0x85 || c as u32 == 0xA0)),
{
}

/// Past the first 256 code points, whitespace lies between U+1680 and U+3000: the Ogham
/// space mark, the general-punctuation spaces U+2000 to U+200A, the line and paragraph
/// separators, the narrow no-break space, the medium mathematical space and the
/// ideographic space. No other character there is whitespace.
pub proof fn lemma_whitespace_beyond_latin1(c: char)
    ensures
        is_whitespace_char(c) && (c as u32) >= 256 ==> 0x1680 <= c as u32 <= 0x3000,
        (c as u32) >= 256 ==> (is_whitespace_char(c) <==> (c as u32 == 0x1680 || (0x2000 <= c as u32
            <= 0x200A) || c as u32 == 0x2028 || c as u32 == 0x2029 || c as u32 == 0x202F || c as u32
            == 0x205F || c as u32 == 0x3000)),
{
}

pub fn is_whitespace(c: char) -> (ws: bool)
    ensures
        ws == is_whitespace_char(c),
        (c as u32) < 128 ==> (ws <==> (c as u32 == 32 || 9 <= c as u32 <= 13)),
        (c as u32) < 256 ==> (ws <==> (c as u32 == 32 || 9 <= c as u32 <= 13 || c as u32 == 0x85
            || c as u32 == 0xA0)),
        ws && (c as u32) >= 256 ==> 0x1680 <= c as u32 <= 0x3000,
{
    proof {
        lemma_whitespace_latin1(c);
        lemma_whitespace_beyond_latin1(c);
    }
    let v = c as u32;
    (9 <= v && v <= 13) || v == 32 || v == 0x85 || v == 0xA0 || v == 0x1680 || (0x2000 <= v && v
        <= 0x200A) || v == 0x2028 || v == 0x2029 || v == 0x202F || v == 0x205F || v == 0x3000
}

/// The words found after reading the first `n` characters, and where the word being read
/// started, if one is.
pub open spec fn scan_words(s: Seq<char>, n: nat) -> (Seq<Seq<char>>, Option<int>)
    decreases n,
{
    if n == 0 {
        (Seq::empty(), None)
    } else {
        let (words, start) = scan_words(s, (n - 1) as nat);
        if is_whitespace_char(s[n - 1]) {
            match start {
                Some(a) => (words.push(s.subrange(a, n - 1)), None),
                None => (words, None),
            }
        } else {
            match start {
                Some(a) => (words, Some(a)),
                None => (words, Some(n - 1)),
            }
        }
    }
}

/// The maximal runs of non-whitespace characters of `s`, in order: what Rust's
/// `str::split_whitespace` yields.
pub open spec fn split_whitespace(s: Seq<char>) -> Seq<Seq<char>> {
    let (words, start) = scan_words(s, s.len());
    match start {
        Some(a) => words.push(s.subrange(a, s.len() as int)),
        None => words,
    }
}

/// A word: at least one character, and none of them whitespace.
pub open spec fn is_word(w: Seq<char>) -> bool {
    w.len() > 0 && forall|j: int| 0 <= j < w.len() ==> !is_whitespace_char(#[trigger] w[j])
}

proof fn lemma_scan_words_are_words(s: Seq<char>, n: nat)
    requires
        n <= s.len(),
    ensures
        forall|k: int| 0 <= k < scan_words(s, n).0.len() ==> is_word(#[trigger] scan_words(s, n).0[k]),
        scan_words(s, n).1 matches Some(a) ==> 0 <= a < n && forall|j: int|
            a <= j < n ==> !is_whitespace_char(#[trigger] s[j]),
    decreases n,
{
    if n > 0 {
        let m = (n - 1) as nat;
        lemma_scan_words_are_words(s, m);
        let (words, start) = scan_words(s, m);
        if is_whitespace_char(s[m as int]) {
            if let Some(a) = start {
                let w = s.subrange(a, m as int);
                assert forall|j: int| 0 <= j < w.len() implies !is_whitespace_char(#[trigger] w[j]) by {
                    assert(w[j] == s[a + j]);
                }
                let nw = words.push(w);
                assert forall|k: int| 0 <= k < nw.len() implies is_word(#[trigger] nw[k]) by {
                    if k < words.len() {
                        assert(nw[k] == words[k]);
                    }
                }
            }
        }
    }
}

/// Every piece that whitespace splitting yields is a word: it is not empty and holds no
/// whitespace character.
pub proof fn lemma_split_whitespace_words(s: Seq<char>)
    ensures
        forall|k: int| 0 <= k < split_whitespace(s).len() ==> is_word(#[trigger] split_whitespace(s)[k]),
{
    lemma_scan_words_are_words(s, s.len());
    let (words, start) = scan_words(s, s.len());
    if let Some(a) = start {
        let w = s.subrange(a, s.len() as int);
        assert forall|j: int| 0 <= j < w.len() implies !is_whitespace_char(#[trigger] w[j]) by {
            assert(w[j] == s[a + j]);
        }
        let nw = words.push(w);
        assert forall|k: int| 0 <= k < nw.len() implies is_word(#[trigger] nw[k]) by {
            if k < words.len() {
                assert(nw[k] == words[k]);
            }
        }
    }
}

/// The characters of `s` that are not whitespace, in order.
pub open spec fn non_whitespace(s: Seq<char>) -> Seq<char> {
    s.filter(not_whitespace())
}

/// The test for a character that is not whitespace.
pub open spec fn not_whitespace() -> spec_fn(char) -> bool {
    |c: char| !is_whitespace_char(c)
}

proof fn lemma_flatten_push(w: Seq<Seq<char>>, x: Seq<char>)
    ensures
        w.push(x).flatten() == w.flatten() + x,
{
    vstd::seq_lib::lemma_flatten_concat(w, seq![x]);
    seq![x].lemma_flatten_one_element();
    assert(w.push(x) =~= w + seq![x]);
    assert(w.flatten() + x =~= w.flatten() + seq![x].flatten());
}

proof fn lemma_scan_words_keeps_chars(s: Seq<char>, n: nat)
    requires
        n <= s.len(),
    ensures
        ({
            let (w, st) = scan_words(s, n);
            w.flatten() + match st {
                Some(a) => s.subrange(a, n as int),
                None => Seq::empty(),
            } == non_whitespace(s.take(n as int))
        }),
        scan_words(s, n).1 matches Some(a) ==> 0 <= a < n,
    decreases n,
{
    if n == 0 {
        assert(s.take(0) =~= Seq::<char>::empty());
        reveal(Seq::filter);
        assert(Seq::<Seq<char>>::empty().flatten() =~= Seq::<char>::empty());
    } else {
        let m = (n - 1) as nat;
        lemma_scan_words_keeps_chars(s, m);
        let (w, st) = scan_words(s, m);
        let c = s[m as int];
        assert(s.take(n as int).drop_last() =~= s.take(m as int));
        assert(s.take(n as int).last() == c);
        let pred = not_whitespace();
        assert(s.take(n as int) =~= s.take(m as int).push(c));
        s.take(m as int).lemma_filter_push(c, pred);
        assert(non_whitespace(s.take(n as int)) == if pred(c) {
            non_whitespace(s.take(m as int)).push(c)
        } else {
            non_whitespace(s.take(m as int))
        });
        if is_whitespace_char(c) {
            if let Some(a) = st {
                lemma_flatten_push(w, s.subrange(a, m as int));
                assert(w.push(s.subrange(a, m as int)).flatten() + Seq::<char>::empty() =~= w.flatten()
                    + s.subrange(a, m as int));
            } else {
                assert(w.flatten() + Seq::<char>::empty() =~= w.flatten());
            }
        } else {
            if let Some(a) = st {
                assert(s.subrange(a, n as int) =~= s.subrange(a, m as int).push(c));
                assert(w.flatten() + s.subrange(a, n as int) =~= (w.flatten() + s.subrange(
                    a,
                    m as int,
                )).push(c));
            } else {
                assert(s.subrange(m as int, n as int) =~= seq![c]);
                assert(w.flatten() + Seq::<char>::empty() =~= w.flatten());
                assert(w.flatten() + s.subrange(m as int, n as int) =~= w.flatten().push(c));
            }
        }
    }
}

/// Splitting on whitespace keeps every other character, in order: the words put
/// together are the text with exactly its whitespace removed.
pub proof fn lemma_split_whitespace_keeps_every_char(s: Seq<char>)
    ensures
        split_whitespace(s).flatten() == non_whitespace(s),
{
    lemma_scan_words_keeps_chars(s, s.len());
    assert(s.take(s.len() as int) =~= s);
    let (w, st) = scan_words(s, s.len());
    if let Some(a) = st {
        lemma_flatten_push(w, s.subrange(a, s.len() as int));
    } else {
        assert(w.flatten() + Seq::<char>::empty() =~= w.flatten());
    }
}

pub open spec fn strings_view(v: Seq<String>) -> Seq<Seq<char>> {
    v.map_values(|s: String| s@)
}

/// Splits `s` into its whitespace-separated words.
pub fn split_words(s: &str) -> (words: Vec<String>)
    ensures
        strings_view(words@) == split_whitespace(s@),
        strings_view(words@).flatten() == non_whitespace(s@),
        forall|k: int| 0 <= k < words@.len() ==> is_word(#[trigger] strings_view(words@)[k]),
{
    proof {
        lemma_split_whitespace_keeps_every_char(s@);
        lemma_split_whitespace_words(s@);
    }
    let n = s.unicode_len();
    let mut words: Vec<String> = Vec::new();
    let mut start: Option<usize> = None;
    let mut i: usize = 0;
    while i < n
        invariant
            n == s@.len(),
            i <= n,
            ({
                let (w, st) = scan_words(s@, i as nat);
                &&& strings_view(words@) == w
                &&& match start {
                    Some(a) => st == Some(a as int) && a < i,
                    None => st is None,
                }
            }),
        decreases n - i,
    {
        let c = s.get_char(i);
        if is_whitespace(c) {
            match start {
                Some(a) => {
                    let w = s.substring_char(a, i).to_owned();
                    words.push(w);
                    assert(strings_view(words@) =~= scan_words(s@, (i + 1) as nat).0);
                },
                None => {},
            }
            start = None;
        } else {
            match start {
                Some(_) => {},
                None => {
                    start = Some(i);
                },
            }
        }
        i = i + 1;
    }
    match start {
        Some(a) => {
            let w = s.substring_char(a, n).to_owned();
            words.push(w);
            assert(strings_view(words@) =~= split_whitespace(s@));
        },
        None => {},
    }
    words
}

/// What Rust's `str::to_uppercase` returns for `s`: its Unicode upper-case mapping.
pub uninterp spec fn uppercase(s: Seq<char>) -> Seq<char>;

/// `str::to_uppercase` from std: the string in upper case, as Unicode maps each character.
#[verifier::external_body]
pub(crate) fn to_uppercase(s: &str) -> (u: String)
    ensures
        u@ == uppercase(s@),
{
    s.to_uppercase()
}

} // verus!
