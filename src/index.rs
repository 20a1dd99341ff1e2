//! An index from token sequences to cache slots, answering exact and
//! longest-ancestor queries.
use radix_trie::TrieCommon;
use vstd::prelude::*;

verus! {

#[verifier::external_type_specification]
#[verifier::external_body]
#[verifier::reject_recursive_types(K)]
#[verifier::reject_recursive_types(V)]
pub struct ExTrie<K, V>(radix_trie::Trie<K, V>);

/// What a trie of token sequences holds: each key with its slot.
pub uninterp spec fn trie_contents(t: radix_trie::Trie<Vec<u32>, usize>) -> Map<Seq<u32>, usize>;

/// `a` is a (strict or non-strict) prefix of `b`.
pub open spec fn is_prefix(a: Seq<u32>, b: Seq<u32>) -> bool {
    a.len() <= b.len() && b.subrange(0, a.len() as int) == a
}

/// Some key of `m` is a prefix of `q`.
pub open spec fn has_ancestor(m: Map<Seq<u32>, usize>, q: Seq<u32>) -> bool {
    exists|k: Seq<u32>| #[trigger] m.contains_key(k) && is_prefix(k, q)
}

/// `k` is a key of `m`, a prefix of `q`, and no longer key of `m` is one.
pub open spec fn is_longest_ancestor(m: Map<Seq<u32>, usize>, q: Seq<u32>, k: Seq<u32>) -> bool {
    &&& m.contains_key(k)
    &&& is_prefix(k, q)
    &&& forall|k2: Seq<u32>| #[trigger] m.contains_key(k2) && is_prefix(k2, q) ==> k2.len() <= k.len()
}

/// Relies on `Trie::new`: a trie with no keys.
#[verifier::external_body]
fn trie_new() -> (r: radix_trie::Trie<Vec<u32>, usize>)
    ensures
        trie_contents(r).dom() == Set::<Seq<u32>>::empty(),
{
    radix_trie::Trie::new()
}

/// Relies on `Trie::insert`: maps `key` to `value`, replacing and returning
/// the value that `key` had.
#[verifier::external_body]
fn trie_insert(t: &mut radix_trie::Trie<Vec<u32>, usize>, key: Vec<u32>, value: usize) -> (r: Option<usize>)
    ensures
        trie_contents(*final(t)) == trie_contents(*old(t)).insert(key@, value),
        r == (if trie_contents(*old(t)).contains_key(key@) {
            Some(trie_contents(*old(t))[key@])
        } else {
            None
        }),
{
    t.insert(key, value)
}

/// Relies on `Trie::get`: the value of exactly `key`.
#[verifier::external_body]
fn trie_get(t: &radix_trie::Trie<Vec<u32>, usize>, key: &[u32]) -> (r: Option<usize>)
    ensures
        r == (if trie_contents(*t).contains_key(key@) {
            Some(trie_contents(*t)[key@])
        } else {
            None
        }),
{
    t.get(&key.to_vec()).copied()
}

/// Relies on `Trie::get_ancestor`: the node of the longest key that is a
/// prefix of `key` (keys are compared on their big-endian byte encoding, in
/// which a prefix of bytes at a key boundary is a prefix of tokens).
#[verifier::external_body]
fn trie_get_ancestor(t: &radix_trie::Trie<Vec<u32>, usize>, key: &[u32]) -> (r: Option<(Vec<u32>, usize)>)
    ensures
        match r {
            Some((k, v)) => is_longest_ancestor(trie_contents(*t), key@, k@)
                && trie_contents(*t)[k@] == v,
            None => !has_ancestor(trie_contents(*t), key@),
        },
{
    match t.get_ancestor(&key.to_vec()) {
        Some(sub) => match (sub.key(), sub.value()) {
            (Some(k), Some(v)) => Some((k.clone(), *v)),
            _ => None,
        },
        None => None,
    }
}

/// Relies on `Trie::len`: the number of keys.
#[verifier::external_body]
fn trie_len(t: &radix_trie::Trie<Vec<u32>, usize>) -> (r: usize)
    ensures
        r == trie_contents(*t).dom().len(),
{
    t.len()
}

/// Relies on `Trie::iter`: every key with its value, each key once.
#[verifier::external_body]
fn trie_entries(t: &radix_trie::Trie<Vec<u32>, usize>) -> (r: Vec<(Vec<u32>, usize)>)
    ensures
        r@.len() == trie_contents(*t).dom().len(),
        forall|i: int| 0 <= i < r@.len() ==> trie_contents(*t).contains_key(#[trigger] r@[i].0@)
            && trie_contents(*t)[r@[i].0@] == r@[i].1,
        forall|k: Seq<u32>| trie_contents(*t).contains_key(k) ==> exists|i: int| 0 <= i < r@.len() && #[trigger] r@[i].0@ == k,
        forall|i: int, j: int| 0 <= i < j < r@.len() ==> r@[i].0@ != r@[j].0@,
{
    t.iter().map(|(k, v)| (k.clone(), *v)).collect()
}

/// An owned copy of a token slice.
pub fn copy_tokens(tokens: &[u32]) -> (r: Vec<u32>)
    ensures
        r@ == tokens@,
{
    let mut r: Vec<u32> = Vec::new();
    let mut i: usize = 0;
    while i < tokens.len()
        invariant
            i <= tokens@.len(),
            r@ == tokens@.subrange(0, i as int),
        decreases tokens@.len() - i,
    {
        r.push(tokens[i]);
        i += 1;
    }
    assert(r@ =~= tokens@);
    r
}

/// Token sequences, each mapped to a cache slot.
pub struct PrefixIndex {
    trie: radix_trie::Trie<Vec<u32>, usize>,
}

impl View for PrefixIndex {
    type V = Map<Seq<u32>, usize>;

    closed spec fn view(&self) -> Map<Seq<u32>, usize> {
        trie_contents(self.trie)
    }
}

impl PrefixIndex {
    /// The keys of an index are finitely many.
    pub closed spec fn wf(&self) -> bool {
        trie_contents(self.trie).dom().finite()
    }

    /// A well-formed index has finitely many keys.
    pub proof fn lemma_finite(&self)
        requires
            self.wf(),
        ensures
            self@.dom().finite(),
    {
    }

    pub fn new() -> (r: PrefixIndex)
        ensures
            r.wf(),
            r@.dom() == Set::<Seq<u32>>::empty(),
    {
        PrefixIndex { trie: trie_new() }
    }

    /// Maps `tokens` to `slot`; the last insert of a key wins.
    pub fn insert(&mut self, tokens: &[u32], slot: usize)
        requires
            old(self).wf(),
        ensures
            final(self).wf(),
            final(self)@ == old(self)@.insert(tokens@, slot),
    {
        let key = copy_tokens(tokens);
        let _ = trie_insert(&mut self.trie, key, slot);
    }

    /// The slot of exactly `tokens`.
    pub fn get_exact(&self, tokens: &[u32]) -> (r: Option<usize>)
        ensures
            r == (if self@.contains_key(tokens@) {
                Some(self@[tokens@])
            } else {
                None
            }),
    {
        trie_get(&self.trie, tokens)
    }

    /// The longest key that is a prefix of `query`, with its slot.
    pub fn get_longest_ancestor(&self, query: &[u32]) -> (r: Option<(Vec<u32>, usize)>)
        ensures
            match r {
                Some((k, s)) => is_longest_ancestor(self@, query@, k@) && self@[k@] == s,
                None => !has_ancestor(self@, query@),
            },
    {
        trie_get_ancestor(&self.trie, query)
    }

    pub fn len(&self) -> (r: usize)
        ensures
            r == self@.dom().len(),
    {
        trie_len(&self.trie)
    }

    /// Every key with its slot, each key once.
    pub fn entries(&self) -> (r: Vec<(Vec<u32>, usize)>)
        ensures
            r@.len() == self@.dom().len(),
            forall|i: int| 0 <= i < r@.len() ==> self@.contains_key(#[trigger] r@[i].0@)
                && self@[r@[i].0@] == r@[i].1,
            forall|k: Seq<u32>| self@.contains_key(k) ==> exists|i: int| 0 <= i < r@.len() && #[trigger] r@[i].0@ == k,
            forall|i: int, j: int| 0 <= i < j < r@.len() ==> r@[i].0@ != r@[j].0@,
    {
        trie_entries(&self.trie)
    }
}

} // verus!
