//! The prefix cache manager: registers finished sequences' caches, finds the
//! longest cached prefix of a request, and demotes the oldest caches to host
//! memory under pressure.
use crate::cache::{at_rest, clone_layers, layer_tensors, is_at_rest, is_resident, layers_to, moved, resident, LayerCaches};
use crate::index::{has_ancestor, is_longest_ancestor, PrefixIndex};
use crate::cache::KvPair;
use crate::index::copy_tokens;
use crate::names::{parse_tensor_name, tensor_name, tensor_name_of, TensorKind};
use crate::tensor::{
    device_is_host, host_device, tensor_chunk, tensor_clone, tensor_leading_dim, tensor_squeeze,
    tensor_stack, tensor_to_device,
};
use candle_core::{Device, Error, Tensor};
use vstd::prelude::*;

verus! {

/// What a search hands back: a copy of the matched caches and the tokens
/// that still have to be computed.
pub struct MatchingCache {
    pub normal: LayerCaches,
    pub xlora: Option<LayerCaches>,
    pub toks: Vec<u32>,
}

/// The caches of all registered sequences live in an arena of slots; the
/// indices map token sequences to slots, and the eviction ledger lists
/// (primary slot, auxiliary slot) pairs oldest first.
pub struct PrefixCacheManager {
    caches: PrefixIndex,
    xlora_caches: Option<PrefixIndex>,
    slots: Vec<LayerCaches>,
    device: Device,
    device_on_host: bool,
    pub n_on_device: usize,
    no_prefix_cache: bool,
    eviction_cache_ptrs: Vec<(usize, Option<usize>)>,
}

/// The highest slot of a ledger entry.
pub open spec fn entry_last(e: (usize, Option<usize>)) -> usize {
    match e.1 {
        Some(a) => a,
        None => e.0,
    }
}

/// How many of the first `n` ledger entries are resident.
pub open spec fn resident_count(slots: Seq<LayerCaches>, ledger: Seq<(usize, Option<usize>)>, n: int) -> nat
    decreases n,
{
    if n <= 0 {
        0
    } else {
        resident_count(slots, ledger, n - 1) + if resident(slots[ledger[n - 1].0 as int]@) {
            1nat
        } else {
            0nat
        }
    }
}

/// The ledger entry `i` is one of the first `excess` resident entries.
pub open spec fn evicted_at(slots: Seq<LayerCaches>, ledger: Seq<(usize, Option<usize>)>, i: int, excess: nat) -> bool {
    resident(slots[ledger[i].0 as int]@) && resident_count(slots, ledger, i) < excess
}

/// The tokens of `t` from position `from` on.
pub fn tail(t: &[u32], from: usize) -> (r: Vec<u32>)
    requires
        from <= t@.len(),
    ensures
        r@ == t@.subrange(from as int, t@.len() as int),
{
    let mut r: Vec<u32> = Vec::new();
    let mut i: usize = from;
    while i < t.len()
        invariant
            from <= i <= t@.len(),
            r@ == t@.subrange(from as int, i as int),
        decreases t@.len() - i,
    {
        r.push(t[i]);
        i += 1;
    }
    r
}

/// Why persisted tensors could not be loaded.
#[derive(Debug)]
pub enum LoadError {
    /// The tensor library failed.
    Tensor(Error),
    /// A name is not `K:` or `V:` followed by token ids joined by `;`.
    BadName,
    /// Two tensors of the same kind are named for one key.
    Duplicate,
    /// A key has a key tensor but no value tensor, or the reverse.
    MissingCounterpart,
    /// The key and value tensors of a key have different (or no) layers.
    LayerCountMismatch,
}

/// `s` is the name of a stacked tensor.
pub open spec fn is_tensor_name(s: Seq<char>) -> bool {
    exists|k: TensorKind, t: Seq<u32>| tensor_name(k, t) == s
}

/// `s` names a stacked tensor of the entry for `t`.
pub open spec fn names_entry(s: Seq<char>, t: Seq<u32>) -> bool {
    s == tensor_name(TensorKind::Key, t) || s == tensor_name(TensorKind::Value, t)
}

/// Some tensor of `named` belongs to the entry for `t`.
pub open spec fn names_key(named: Seq<(String, Tensor)>, t: Seq<u32>) -> bool {
    exists|i: int| 0 <= i < named.len() && names_entry((#[trigger] named[i]).0@, t)
}

/// No key before position `p` is `t`.
pub open spec fn fresh(keys: Seq<Vec<u32>>, p: int, t: Seq<u32>) -> bool {
    forall|c: int| 0 <= c < p ==> (#[trigger] keys[c])@ != t
}

/// `b` has at `t` what `a` has.
pub open spec fn kept(a: Map<Seq<u32>, usize>, b: Map<Seq<u32>, usize>, t: Seq<u32>) -> bool {
    &&& b.contains_key(t) == a.contains_key(t)
    &&& a.contains_key(t) ==> b[t] == a[t]
}

/// A tensor name determines the tokens of its entry.
proof fn lemma_name_tokens(k: TensorKind, a: Seq<u32>, b: Seq<u32>)
    requires
        names_entry(tensor_name(k, a), b),
    ensures
        a == b,
{
    let na = tensor_name(k, a);
    assert(na.subrange(2, na.len() as int) =~= crate::names::join(a));
    let nk = tensor_name(TensorKind::Key, b);
    let nv = tensor_name(TensorKind::Value, b);
    assert(nk.subrange(2, nk.len() as int) =~= crate::names::join(b));
    assert(nv.subrange(2, nv.len() as int) =~= crate::names::join(b));
    crate::names::lemma_join_injective(a, b);
}

/// Some tensor of `named` is the stacked tensor of kind `k` of the entry for `t`.
pub open spec fn names_kind(named: Seq<(String, Tensor)>, k: TensorKind, t: Seq<u32>) -> bool {
    exists|j: int| 0 <= j < named.len() && (#[trigger] named[j]).0@ == tensor_name(k, t)
}

/// Every tensor of `named` has a well-formed name.
pub open spec fn all_names_parse(named: Seq<(String, Tensor)>) -> bool {
    forall|i: int| 0 <= i < named.len() ==> is_tensor_name((#[trigger] named[i]).0@)
}

/// Two tensors of `named` have the same name.
pub open spec fn has_duplicate(named: Seq<(String, Tensor)>) -> bool {
    exists|i: int, j: int| 0 <= i < j < named.len() && (#[trigger] named[i]).0@ == (#[trigger] named[j]).0@
}

/// Some entry of `named` has a tensor of one kind but not of the other.
pub open spec fn one_kind_only(named: Seq<(String, Tensor)>) -> bool {
    exists|t: Seq<u32>| #[trigger] names_key(named, t) && !(names_kind(named, TensorKind::Key, t) && names_kind(
        named,
        TensorKind::Value,
        t,
    ))
}

proof fn lemma_names_kind_push(w: Seq<(String, Tensor)>, x: (String, Tensor), k: TensorKind, t: Seq<u32>)
    ensures
        names_kind(w.push(x), k, t) <==> (names_kind(w, k, t) || x.0@ == tensor_name(k, t)),
        names_kind(w, k, t) ==> names_key(w, t),
{
    let u = w.push(x);
    if names_kind(u, k, t) {
        let j = choose|j: int| 0 <= j < u.len() && (#[trigger] u[j]).0@ == tensor_name(k, t);
        if j < w.len() {
            assert(w[j] == u[j]);
        }
    }
    if names_kind(w, k, t) {
        let j = choose|j: int| 0 <= j < w.len() && (#[trigger] w[j]).0@ == tensor_name(k, t);
        assert(u[j] == w[j]);
        assert(names_entry(w[j].0@, t));
    }
    if x.0@ == tensor_name(k, t) {
        assert(u[w.len() as int] == x);
    }
}

/// Whether two token lists are equal.
pub fn tokens_equal(a: &Vec<u32>, b: &Vec<u32>) -> (r: bool)
    ensures
        r == (a@ == b@),
{
    if a.len() != b.len() {
        return false;
    }
    let mut i: usize = 0;
    while i < a.len()
        invariant
            a@.len() == b@.len(),
            i <= a@.len(),
            forall|k: int| 0 <= k < i ==> a@[k] == b@[k],
        decreases a@.len() - i,
    {
        if a[i] != b[i] {
            return false;
        }
        i += 1;
    }
    assert(a@ =~= b@);
    true
}

/// Splits a tensor stacked along its leading dimension into its pieces.
fn unstack(t: &Tensor) -> (r: Result<Vec<Tensor>, LoadError>)
    ensures
        r matches Err(e) ==> (e is Tensor || e is LayerCountMismatch),
        r matches Ok(v) ==> v@.len() > 0,
{
    let n = match tensor_leading_dim(t) {
        Ok(n) => n,
        Err(e) => return Err(LoadError::Tensor(e)),
    };
    if n == 0 {
        return Err(LoadError::LayerCountMismatch);
    }
    let pieces = match tensor_chunk(t, n) {
        Ok(p) => p,
        Err(e) => return Err(LoadError::Tensor(e)),
    };
    if pieces.len() != n {
        return Err(LoadError::LayerCountMismatch);
    }
    let mut out: Vec<Tensor> = Vec::new();
    let mut i: usize = 0;
    while i < pieces.len()
        invariant
            i <= pieces@.len(),
            pieces@.len() > 0,
            out@.len() == i,
        decreases pieces@.len() - i,
    {
        match tensor_squeeze(&pieces[i]) {
            Ok(x) => out.push(x),
            Err(e) => return Err(LoadError::Tensor(e)),
        }
        i += 1;
    }
    Ok(out)
}

/// Pairs the unstacked key and value tensors into layers placed on
/// `device`, of which `on_host` says whether it is host memory.
fn place_layers(ks: &Vec<Tensor>, vs: &Vec<Tensor>, device: &Device, on_host: bool) -> (r: Result<LayerCaches, LoadError>)
    requires
        ks@.len() == vs@.len(),
    ensures
        r matches Err(e) ==> e is Tensor,
        r matches Ok(l) ==> l@.len() == ks@.len() && forall|i: int| 0 <= i < l@.len()
            ==> ((#[trigger] l@[i]) matches Some(kv) && kv.on_host == on_host),
{
    let mut out: LayerCaches = Vec::new();
    let mut i: usize = 0;
    while i < ks.len()
        invariant
            ks@.len() == vs@.len(),
            i <= ks@.len(),
            out@.len() == i,
            forall|j: int| 0 <= j < i ==> ((#[trigger] out@[j]) matches Some(kv) && kv.on_host == on_host),
        decreases ks@.len() - i,
    {
        let k = match tensor_to_device(&ks[i], device) {
            Ok(t) => t,
            Err(e) => return Err(LoadError::Tensor(e)),
        };
        let v = match tensor_to_device(&vs[i], device) {
            Ok(t) => t,
            Err(e) => return Err(LoadError::Tensor(e)),
        };
        out.push(Some(KvPair { k, v, on_host }));
        i += 1;
    }
    Ok(out)
}

/// Positions `2 * i` and `2 * i + 1` of `v` hold the stacked key and value
/// tensors of the entry for `k`.
pub open spec fn saved_at(v: Seq<(String, Tensor)>, i: int, k: Seq<u32>) -> bool {
    &&& v[2 * i].0@ == tensor_name(TensorKind::Key, k)
    &&& v[2 * i + 1].0@ == tensor_name(TensorKind::Value, k)
}

/// Positions `2 * i` and `2 * i + 1` of `v` hold the tensors of some key of
/// `idx`.
pub open spec fn saved_some_key(idx: Map<Seq<u32>, usize>, v: Seq<(String, Tensor)>, i: int) -> bool {
    exists|k: Seq<u32>| idx.contains_key(k) && #[trigger] saved_at(v, i, k)
}

/// `v` holds, for each key of `idx`, its stacked key tensor and then its
/// stacked value tensor, under their names.
pub open spec fn saved_names(idx: Map<Seq<u32>, usize>, v: Seq<(String, Tensor)>) -> bool {
    &&& v.len() == 2 * idx.dom().len()
    &&& forall|i: int| 0 <= i < idx.dom().len() ==> #[trigger] saved_some_key(idx, v, i)
    &&& forall|k: Seq<u32>| #[trigger] idx.contains_key(k) ==> exists|i: int| 0 <= i < idx.dom().len() && #[trigger] saved_at(v, i, k)
}

/// The ledger entry `e` names slot `s`.
pub open spec fn entry_uses(e: (usize, Option<usize>), s: int) -> bool {
    e.0 as int == s || (e.1 matches Some(a) && a as int == s)
}

/// After moving the first `excess` resident entries to host memory, that
/// many fewer of the first `n` entries are resident (as many as there were).
pub proof fn lemma_count_after_eviction(a: PrefixCacheManager, b: PrefixCacheManager, excess: nat, n: int)
    requires
        PrefixCacheManager::evict_post(a, b, excess),
        0 <= n <= a.ledger().len(),
    ensures
        resident_count(b.slots(), b.ledger(), n) == resident_count(a.slots(), a.ledger(), n) - if resident_count(
            a.slots(),
            a.ledger(),
            n,
        ) < excess {
            resident_count(a.slots(), a.ledger(), n)
        } else {
            excess
        },
    decreases n,
{
    if n > 0 {
        lemma_count_after_eviction(a, b, excess, n - 1);
        let i = n - 1;
        let p = a.ledger()[i].0 as int;
        if evicted_at(a.slots(), a.ledger(), i, excess) {
            let x = b.slots()[p]@;
            if x.len() > 0 && x[0] is Some {
                assert(x[0]->Some_0.on_host);
            }
        } else {
            assert(b.slots()[p] == a.slots()[p]);
        }
    }
}

/// Some ledger entry before `n` names slot `s`.
pub open spec fn touched_before(ledger: Seq<(usize, Option<usize>)>, n: int, s: int) -> bool {
    exists|j: int| 0 <= j < n && entry_uses(#[trigger] ledger[j], s)
}

impl PrefixCacheManager {
    pub closed spec fn index(&self) -> Map<Seq<u32>, usize> {
        self.caches@
    }

    pub closed spec fn aux_index(&self) -> Option<Map<Seq<u32>, usize>> {
        match self.xlora_caches {
            Some(i) => Some(i@),
            None => None,
        }
    }

    pub closed spec fn slots(&self) -> Seq<LayerCaches> {
        self.slots@
    }

    pub closed spec fn ledger(&self) -> Seq<(usize, Option<usize>)> {
        self.eviction_cache_ptrs@
    }

    /// The compute device that searched caches are moved to.
    pub closed spec fn device(&self) -> Device {
        self.device
    }

    /// A well-formed manager's indices have finitely many keys.
    pub proof fn lemma_index_finite(&self)
        requires
            self.wf(),
        ensures
            self.index().dom().finite(),
            self.aux_index() matches Some(x) ==> x.dom().finite(),
    {
        self.caches.lemma_finite();
        if let Some(x) = &self.xlora_caches {
            x.lemma_finite();
        }
    }

    /// How many caches may stay resident on the compute device.
    pub closed spec fn target(&self) -> usize {
        self.n_on_device
    }

    pub closed spec fn disabled(&self) -> bool {
        self.no_prefix_cache
    }

    /// Whether the compute device is host memory.
    pub closed spec fn device_on_host(&self) -> bool {
        self.device_on_host
    }

    /// Every index entry names a slot; ledger entries name slots in
    /// increasing order, an auxiliary slot right after its primary one.
    pub closed spec fn wf(&self) -> bool {
        &&& self.caches.wf()
        &&& forall|k: Seq<u32>| #[trigger] self.caches@.contains_key(k) ==> self.caches@[k] < self.slots@.len()
        &&& self.xlora_caches matches Some(x) ==> {
            &&& x.wf()
            &&& forall|k: Seq<u32>| #[trigger] x@.contains_key(k) ==> x@[k] < self.slots@.len()
            &&& forall|k: Seq<u32>, k2: Seq<u32>| #[trigger] x@.contains_key(k) && #[trigger] self.caches@.contains_key(k2)
                ==> x@[k] != self.caches@[k2]
        }
        &&& forall|i: int| 0 <= i < self.eviction_cache_ptrs@.len() ==> {
            &&& entry_last(#[trigger] self.eviction_cache_ptrs@[i]) < self.slots@.len()
            &&& (self.eviction_cache_ptrs@[i].1 matches Some(a) ==> a == self.eviction_cache_ptrs@[i].0 + 1)
        }
        &&& forall|i: int, j: int| 0 <= i < j < self.eviction_cache_ptrs@.len()
            ==> entry_last(#[trigger] self.eviction_cache_ptrs@[i]) < (#[trigger] self.eviction_cache_ptrs@[j]).0
    }

    /// Everything but the contents of the slots is as in `a`.
    pub open spec fn only_slots_changed(a: Self, b: Self) -> bool {
        &&& b.index() == a.index()
        &&& b.aux_index() == a.aux_index()
        &&& b.ledger() == a.ledger()
        &&& b.disabled() == a.disabled()
        &&& b.device_on_host() == a.device_on_host()
        &&& b.target() == a.target()
        &&& b.slots().len() == a.slots().len()
    }

    /// `b` is `a` after the first `excess` resident ledger entries (oldest
    /// first) have moved, with their auxiliary caches, to host memory.
    pub open spec fn evict_post(a: Self, b: Self, excess: nat) -> bool {
        &&& Self::only_slots_changed(a, b)
        &&& forall|i: int| 0 <= i < a.ledger().len() ==> {
            let (p, x) = #[trigger] a.ledger()[i];
            if evicted_at(a.slots(), a.ledger(), i, excess) {
                &&& moved(a.slots()[p as int]@, b.slots()[p as int]@, true)
                &&& (x matches Some(s) ==> moved(a.slots()[s as int]@, b.slots()[s as int]@, true))
            } else {
                &&& b.slots()[p as int] == a.slots()[p as int]
                &&& (x matches Some(s) ==> b.slots()[s as int] == a.slots()[s as int])
            }
        }
        &&& forall|s: int| 0 <= s < a.slots().len() && !touched_before(a.ledger(), a.ledger().len() as int, s)
            ==> #[trigger] b.slots()[s] == a.slots()[s]
    }

    /// How many resident entries exceed the configured number.
    pub open spec fn excess(&self) -> nat {
        let c = resident_count(self.slots(), self.ledger(), self.ledger().len() as int);
        if c > self.target() {
            (c - self.target()) as nat
        } else {
            0
        }
    }

    /// Each slot of `b` is that of `a`, or that of `a` moved to host memory.
    pub open spec fn partly_evicted(a: Self, b: Self) -> bool {
        &&& Self::only_slots_changed(a, b)
        &&& forall|i: int| 0 <= i < a.ledger().len() ==> Self::entry_kept(a, b, #[trigger] a.ledger()[i])
            || Self::entry_moved(a, b, a.ledger()[i])
        &&& forall|s: int| 0 <= s < a.slots().len() && !touched_before(a.ledger(), a.ledger().len() as int, s)
            ==> #[trigger] b.slots()[s] == a.slots()[s]
    }

    /// The caches of ledger entry `e` are in `b` as in `a`.
    pub open spec fn entry_kept(a: Self, b: Self, e: (usize, Option<usize>)) -> bool {
        &&& b.slots()[e.0 as int] == a.slots()[e.0 as int]
        &&& (e.1 matches Some(x) ==> b.slots()[x as int] == a.slots()[x as int])
    }

    /// The caches of ledger entry `e` (primary and auxiliary) are in `b`
    /// those of `a` moved to host memory.
    pub open spec fn entry_moved(a: Self, b: Self, e: (usize, Option<usize>)) -> bool {
        &&& moved(a.slots()[e.0 as int]@, b.slots()[e.0 as int]@, true)
        &&& (e.1 matches Some(x) ==> moved(a.slots()[x as int]@, b.slots()[x as int]@, true))
    }

    /// The caches of ledger entry `e` need no move to host memory.
    pub open spec fn entry_at_rest(a: Self, e: (usize, Option<usize>)) -> bool {
        &&& at_rest(a.slots()[e.0 as int]@, true)
        &&& (e.1 matches Some(x) ==> at_rest(a.slots()[x as int]@, true))
    }

    /// `b` is `a` with every ledger entry's caches moved to host memory.
    pub open spec fn evict_all_post(a: Self, b: Self) -> bool {
        &&& Self::only_slots_changed(a, b)
        &&& forall|i: int| 0 <= i < a.ledger().len() ==> Self::entry_moved(a, b, #[trigger] a.ledger()[i])
        &&& forall|s: int| 0 <= s < a.slots().len() && !touched_before(a.ledger(), a.ledger().len() as int, s)
            ==> #[trigger] b.slots()[s] == a.slots()[s]
    }

    /// No ledger entry has a cache to move to host memory.
    pub open spec fn ledger_at_rest(&self) -> bool {
        forall|i: int| 0 <= i < self.ledger().len() ==> Self::entry_at_rest(*self, #[trigger] self.ledger()[i])
    }

    /// Entries from `i` on name no slot that an entry before `i` names.
    proof fn lemma_later_untouched(m: Self, i: int, j: int)
        requires
            m.wf(),
            0 <= i <= j < m.ledger().len(),
        ensures
            !touched_before(m.ledger(), i, m.ledger()[j].0 as int),
            m.ledger()[j].1 matches Some(a) ==> !touched_before(m.ledger(), i, a as int),
    {
        let l = m.ledger();
        if touched_before(l, i, l[j].0 as int) {
            let k = choose|k: int| 0 <= k < i && entry_uses(#[trigger] l[k], l[j].0 as int);
            assert(entry_last(l[k]) < l[j].0);
        }
        if let Some(a) = l[j].1 {
            assert(a == l[j].0 + 1) by {
                assert(entry_last(l[j]) < m.slots().len());
            }
            if touched_before(l, i, a as int) {
                let k = choose|k: int| 0 <= k < i && entry_uses(#[trigger] l[k], a as int);
                assert(entry_last(l[k]) < l[j].0);
            }
        }
    }

    /// An empty manager. With `is_xlora` it keeps an auxiliary index too; with
    /// `no_prefix_cache` every operation does nothing.
    pub fn new(device: Device, n_on_device: usize, is_xlora: bool, no_prefix_cache: bool) -> (r: Self)
        ensures
            r.wf(),
            r.index().dom() == Set::<Seq<u32>>::empty(),
            is_xlora ==> (r.aux_index() matches Some(x) && x.dom() == Set::<Seq<u32>>::empty()),
            !is_xlora ==> r.aux_index() is None,
            r.slots().len() == 0,
            r.ledger().len() == 0,
            r.target() == n_on_device,
            r.disabled() == no_prefix_cache,
            r.device() == device,
    {
        let device_on_host = device_is_host(&device);
        PrefixCacheManager {
            caches: PrefixIndex::new(),
            xlora_caches: if is_xlora {
                Some(PrefixIndex::new())
            } else {
                None
            },
            slots: Vec::new(),
            device,
            device_on_host,
            n_on_device,
            no_prefix_cache,
            eviction_cache_ptrs: Vec::new(),
        }
    }

    /// Moves the caches of ledger entry `i` to host memory: both or neither.
    fn evict_entry(&mut self, i: usize, host: &Device) -> (r: Result<(), Error>)
        requires
            old(self).wf(),
            i < old(self).ledger().len(),
        ensures
            final(self).wf(),
            Self::only_slots_changed(*old(self), *final(self)),
            r is Ok ==> {
                let (p, x) = old(self).ledger()[i as int];
                &&& moved(old(self).slots()[p as int]@, final(self).slots()[p as int]@, true)
                &&& (x matches Some(a) ==> moved(old(self).slots()[a as int]@, final(self).slots()[a as int]@, true))
                &&& forall|t: int| 0 <= t < old(self).slots().len() && !entry_uses(old(self).ledger()[i as int], t)
                    ==> #[trigger] final(self).slots()[t] == old(self).slots()[t]
            },
            r is Err ==> *final(self) == *old(self),
            Self::entry_at_rest(*old(self), old(self).ledger()[i as int]) ==> (r is Ok && *final(self) == *old(self)),
    {
        let (p, x) = self.eviction_cache_ptrs[i];
        assert(entry_last(self.eviction_cache_ptrs@[i as int]) < self.slots@.len());
        let aux_at_rest = match x {
            Some(a) => is_at_rest(&self.slots[a], true),
            None => true,
        };
        if aux_at_rest && is_at_rest(&self.slots[p], true) {
            proof {
                let l = self.eviction_cache_ptrs@[i as int];
                if let Some(a) = x {
                    assert(moved(self.slots@[a as int]@, self.slots@[a as int]@, true));
                }
                assert(moved(self.slots@[p as int]@, self.slots@[p as int]@, true));
            }
            return Ok(());
        }
        let np = match layers_to(&self.slots[p], host, true) {
            Ok(l) => l,
            Err(e) => return Err(e),
        };
        match x {
            Some(a) => {
                let na = match layers_to(&self.slots[a], host, true) {
                    Ok(l) => l,
                    Err(e) => return Err(e),
                };
                self.slots.set(p, np);
                self.slots.set(a, na);
            },
            None => {
                self.slots.set(p, np);
            },
        }
        Ok(())
    }

    /// Walks the ledger oldest first and moves the first `excess` resident
    /// entries to host memory.
    #[verifier::rlimit(50)]
    fn evict_first(&mut self, excess: usize) -> (r: Result<(), Error>)
        requires
            old(self).wf(),
        ensures
            final(self).wf(),
            r is Ok ==> Self::evict_post(*old(self), *final(self), excess as nat),
            r is Err ==> Self::partly_evicted(*old(self), *final(self)),
            excess == 0 ==> (r is Ok && *final(self) == *old(self)),
    {
        let ghost pre = *self;
        assert(Self::partly_evicted(pre, *self));
        let host = host_device();
        let mut evicted: usize = 0;
        let mut i: usize = 0;
        while i < self.eviction_cache_ptrs.len()
            invariant
                self.wf(),
                Self::only_slots_changed(pre, *self),
                pre.wf(),
                i <= pre.ledger().len(),
                evicted as nat == if resident_count(pre.slots(), pre.ledger(), i as int) < excess {
                    resident_count(pre.slots(), pre.ledger(), i as int)
                } else {
                    excess as nat
                },
                forall|j: int| 0 <= j < i ==> {
                    let (p, x) = #[trigger] pre.ledger()[j];
                    if evicted_at(pre.slots(), pre.ledger(), j, excess as nat) {
                        &&& moved(pre.slots()[p as int]@, self.slots()[p as int]@, true)
                        &&& (x matches Some(s) ==> moved(pre.slots()[s as int]@, self.slots()[s as int]@, true))
                    } else {
                        &&& self.slots()[p as int] == pre.slots()[p as int]
                        &&& (x matches Some(s) ==> self.slots()[s as int] == pre.slots()[s as int])
                    }
                },
                forall|s: int| 0 <= s < pre.slots().len() && !touched_before(pre.ledger(), i as int, s)
                    ==> #[trigger] self.slots()[s] == pre.slots()[s],
                Self::partly_evicted(pre, *self),
                pre == *old(self),
                excess == 0 ==> *self == pre,
            decreases pre.ledger().len() - i,
        {
            let (p, x) = self.eviction_cache_ptrs[i];
            proof {
                assert forall|j: int| 0 <= j < i implies entry_last(#[trigger] pre.ledger()[j]) < p by {
                    assert(entry_last(pre.ledger()[j]) < pre.ledger()[i as int].0);
                }
                assert(!touched_before(pre.ledger(), i as int, p as int)) by {
                    if touched_before(pre.ledger(), i as int, p as int) {
                        let j = choose|j: int| 0 <= j < i && entry_uses(#[trigger] pre.ledger()[j], p as int);
                        assert(entry_last(pre.ledger()[j]) < p);
                    }
                }
                if let Some(a) = x {
                    assert(!touched_before(pre.ledger(), i as int, a as int)) by {
                        if touched_before(pre.ledger(), i as int, a as int) {
                            let j = choose|j: int| 0 <= j < i && entry_uses(#[trigger] pre.ledger()[j], a as int);
                            assert(entry_last(pre.ledger()[j]) < p);
                        }
                    }
                }
                assert(entry_last(pre.ledger()[i as int]) < pre.slots().len());
            }
            let ghost before = *self;
            assert(before.slots()[p as int] == pre.slots()[p as int]);
            if let Some(a) = x {
                assert(before.slots()[a as int] == pre.slots()[a as int]);
            }
            if evicted < excess && is_resident(&self.slots[p]) {
                let res = self.evict_entry(i, &host);
                match res {
                    Ok(()) => {},
                    Err(e) => {
                        assert(*self == before);
                        assert(Self::partly_evicted(pre, *self));
                        return Err(e);
                    },
                }
                evicted += 1;
            }
            proof {
                assert forall|j: int| 0 <= j < i implies {
                    let (pj, xj) = #[trigger] pre.ledger()[j];
                    &&& self.slots()[pj as int] == before.slots()[pj as int]
                    &&& (xj matches Some(s) ==> self.slots()[s as int] == before.slots()[s as int])
                } by {
                    assert(entry_last(pre.ledger()[j]) < pre.ledger()[i as int].0);
                }
                assert forall|s: int| 0 <= s < pre.slots().len() && !touched_before(pre.ledger(), i + 1, s)
                    implies #[trigger] self.slots()[s] == before.slots()[s] by {
                    if entry_uses(pre.ledger()[i as int], s) {
                        assert(touched_before(pre.ledger(), i + 1, s));
                    }
                }
                assert forall|s: int| 0 <= s < pre.slots().len() implies #[trigger] self.slots()[s] == pre.slots()[s]
                    || moved(pre.slots()[s]@, self.slots()[s]@, true) by {
                    assert(before.slots()[s] == pre.slots()[s] || moved(pre.slots()[s]@, before.slots()[s]@, true));
                    if s == p {
                        if evicted_at(pre.slots(), pre.ledger(), i as int, excess as nat) {
                            assert(moved(pre.slots()[s]@, self.slots()[s]@, true));
                        } else {
                            assert(self.slots()[s] == pre.slots()[s]);
                        }
                    } else if x matches Some(a) && a as int == s {
                        let a = x->Some_0;
                        if evicted_at(pre.slots(), pre.ledger(), i as int, excess as nat) {
                            assert(moved(pre.slots()[a as int]@, self.slots()[a as int]@, true));
                            assert(moved(pre.slots()[s]@, self.slots()[s]@, true));
                        } else {
                            assert(self.slots()[s] == pre.slots()[s]);
                        }
                    } else {
                        assert(self.slots()[s] == before.slots()[s]);
                    }
                }
                assert forall|s: int| 0 <= s < pre.slots().len() && !touched_before(pre.ledger(), i + 1, s)
                    implies !touched_before(pre.ledger(), i as int, s) by {
                    if touched_before(pre.ledger(), i as int, s) {
                        let j = choose|j: int| 0 <= j < i && entry_uses(#[trigger] pre.ledger()[j], s);
                        assert(0 <= j < i + 1);
                    }
                }
            }
            i += 1;
        }
        Ok(())
    }

    /// Moves the oldest resident caches to host memory until at most
    /// `n_on_device` stay resident. Returns how many index entries exceed
    /// `n_on_device`.
    pub fn evict_to_cpu(&mut self) -> (r: Result<usize, Error>)
        requires
            old(self).wf(),
        ensures
            final(self).wf(),
            old(self).disabled() ==> r == Ok::<usize, Error>(0) && *final(self) == *old(self),
            !old(self).disabled() ==> match r {
                Ok(n) => {
                    &&& n == (if old(self).index().dom().len() > old(self).target() {
                        old(self).index().dom().len() - old(self).target()
                    } else {
                        0
                    })
                    &&& Self::evict_post(*old(self), *final(self), old(self).excess())
                    &&& resident_count(final(self).slots(), final(self).ledger(), final(self).ledger().len() as int)
                        == if resident_count(old(self).slots(), old(self).ledger(), old(self).ledger().len() as int) < old(self).target() {
                            resident_count(old(self).slots(), old(self).ledger(), old(self).ledger().len() as int)
                        } else {
                            old(self).target() as nat
                        }
                },
                Err(_) => Self::partly_evicted(*old(self), *final(self)),
            },
            !old(self).disabled() && old(self).excess() == 0 ==> r == Ok::<usize, Error>(
                if old(self).index().dom().len() > old(self).target() {
                    (old(self).index().dom().len() - old(self).target()) as usize
                } else {
                    0
                },
            ),
    {
        if self.no_prefix_cache {
            return Ok(0);
        }
        let ghost pre = *self;
        let mut count: usize = 0;
        let mut i: usize = 0;
        while i < self.eviction_cache_ptrs.len()
            invariant
                self.wf(),
                i <= self.ledger().len(),
                count == resident_count(self.slots(), self.ledger(), i as int),
                count <= i,
            decreases self.ledger().len() - i,
        {
            let p = self.eviction_cache_ptrs[i].0;
            assert(entry_last(self.eviction_cache_ptrs@[i as int]) < self.slots@.len());
            if is_resident(&self.slots[p]) {
                count += 1;
            }
            i += 1;
        }
        let excess: usize = if count > self.n_on_device {
            count - self.n_on_device
        } else {
            0
        };
        match self.evict_first(excess) {
            Ok(()) => {},
            Err(e) => return Err(e),
        }
        proof {
            lemma_count_after_eviction(pre, *self, excess as nat, pre.ledger().len() as int);
        }
        let len = self.caches.len();
        Ok(if len > self.n_on_device {
            len - self.n_on_device
        } else {
            0
        })
    }

    /// Moves every populated layer of every ledger entry to host memory.
    /// Returns the number of index entries.
    pub fn evict_all_to_cpu(&mut self) -> (r: Result<usize, Error>)
        requires
            old(self).wf(),
        ensures
            final(self).wf(),
            old(self).disabled() ==> r == Ok::<usize, Error>(0) && *final(self) == *old(self),
            !old(self).disabled() ==> match r {
                Ok(n) => {
                    &&& n == old(self).index().dom().len()
                    &&& Self::evict_all_post(*old(self), *final(self))
                },
                Err(_) => Self::partly_evicted(*old(self), *final(self)),
            },
            !old(self).disabled() && old(self).ledger_at_rest() ==> (r == Ok::<usize, Error>(
                old(self).index().dom().len() as usize,
            ) && *final(self) == *old(self)),
    {
        if self.no_prefix_cache {
            return Ok(0);
        }
        let ghost pre = *self;
        let host = host_device();
        let mut i: usize = 0;
        while i < self.eviction_cache_ptrs.len()
            invariant
                self.wf(),
                pre.wf(),
                pre == *old(self),
                !pre.disabled(),
                Self::only_slots_changed(pre, *self),
                i <= pre.ledger().len(),
                forall|j: int| 0 <= j < i ==> Self::entry_moved(pre, *self, #[trigger] pre.ledger()[j]),
                forall|s: int| 0 <= s < pre.slots().len() && !touched_before(pre.ledger(), i as int, s)
                    ==> #[trigger] self.slots()[s] == pre.slots()[s],
                pre.ledger_at_rest() ==> *self == pre,
            decreases pre.ledger().len() - i,
        {
            let ghost before = *self;
            proof {
                Self::lemma_later_untouched(pre, i as int, i as int);
                let (p, x) = pre.ledger()[i as int];
                assert(entry_last(pre.ledger()[i as int]) < pre.slots().len());
                assert(self.slots()[p as int] == pre.slots()[p as int]);
                if let Some(a) = x {
                    assert(self.slots()[a as int] == pre.slots()[a as int]);
                }
                if pre.ledger_at_rest() {
                    assert(Self::entry_at_rest(pre, pre.ledger()[i as int]));
                }
            }
            match self.evict_entry(i, &host) {
                Ok(()) => {},
                Err(e) => {
                    proof {
                        assert forall|j: int| 0 <= j < pre.ledger().len() implies Self::entry_kept(pre, *self, #[trigger] pre.ledger()[j])
                            || Self::entry_moved(pre, *self, pre.ledger()[j]) by {
                            if j >= i {
                                Self::lemma_later_untouched(pre, i as int, j);
                                assert(entry_last(pre.ledger()[j]) < pre.slots().len());
                                let (p, x) = pre.ledger()[j];
                                assert(self.slots()[p as int] == pre.slots()[p as int]);
                                if let Some(a) = x {
                                    assert(self.slots()[a as int] == pre.slots()[a as int]);
                                }
                            }
                        }
                        assert forall|s: int| 0 <= s < pre.slots().len() && !touched_before(pre.ledger(), pre.ledger().len() as int, s)
                            implies #[trigger] self.slots()[s] == pre.slots()[s] by {
                            if touched_before(pre.ledger(), i as int, s) {
                                let k = choose|k: int| 0 <= k < i && entry_uses(#[trigger] pre.ledger()[k], s);
                                assert(touched_before(pre.ledger(), pre.ledger().len() as int, s));
                            }
                        }
                    }
                    return Err(e);
                },
            }
            proof {
                let e = pre.ledger()[i as int];
                assert forall|j: int| 0 <= j < i + 1 implies Self::entry_moved(pre, *self, #[trigger] pre.ledger()[j]) by {
                    if j < i {
                        assert(entry_last(pre.ledger()[j]) < e.0);
                        let (pj, xj) = pre.ledger()[j];
                        assert(self.slots()[pj as int] == before.slots()[pj as int]);
                        if let Some(aj) = xj {
                            assert(self.slots()[aj as int] == before.slots()[aj as int]);
                        }
                    }
                }
                assert forall|s: int| 0 <= s < pre.slots().len() && !touched_before(pre.ledger(), i + 1, s)
                    implies #[trigger] self.slots()[s] == pre.slots()[s] by {
                    if entry_uses(e, s) {
                        assert(touched_before(pre.ledger(), i + 1, s));
                    }
                    if touched_before(pre.ledger(), i as int, s) {
                        let k = choose|k: int| 0 <= k < i && entry_uses(#[trigger] pre.ledger()[k], s);
                        assert(touched_before(pre.ledger(), i + 1, s));
                    }
                    assert(self.slots()[s] == before.slots()[s]);
                }
            }
            i += 1;
        }
        Ok(self.caches.len())
    }

    /// The caches registered under `k` need no move to the compute device.
    pub open spec fn match_at_rest(a: Self, k: Seq<u32>) -> bool {
        &&& at_rest(a.slots()[a.index()[k] as int]@, a.device_on_host())
        &&& (a.aux_index() is Some && a.aux_index()->Some_0.contains_key(k))
            ==> at_rest(a.slots()[a.aux_index()->Some_0[k] as int]@, a.device_on_host())
    }

    /// Whether `m` is what a search for `toks` hands back when `k` is the
    /// longest cached prefix, `a` the manager before and `b` after: the
    /// matched caches moved to the compute device, copies of them, and the
    /// tokens past the prefix.
    pub open spec fn match_post(a: Self, b: Self, toks: Seq<u32>, k: Seq<u32>, m: MatchingCache) -> bool {
        let s = a.index()[k] as int;
        &&& Self::only_slots_changed(a, b)
        &&& m.toks@ == toks.subrange(k.len() as int, toks.len() as int)
        &&& moved(a.slots()[s]@, b.slots()[s]@, a.device_on_host())
        &&& m.normal@ == b.slots()[s]@
        &&& if a.aux_index() is Some && a.aux_index()->Some_0.contains_key(k) {
            let t = a.aux_index()->Some_0[k] as int;
            &&& moved(a.slots()[t]@, b.slots()[t]@, a.device_on_host())
            &&& m.xlora matches Some(c) && c@ == b.slots()[t]@
            &&& forall|u: int| 0 <= u < a.slots().len() && u != s && u != t ==> #[trigger] b.slots()[u] == a.slots()[u]
        } else {
            &&& m.xlora is None
            &&& forall|u: int| 0 <= u < a.slots().len() && u != s ==> #[trigger] b.slots()[u] == a.slots()[u]
        }
    }

    /// Registers the caches of a sequence under its tokens, as a new slot
    /// (and a second one for the auxiliary cache, when this manager keeps an
    /// auxiliary index), and appends them to the eviction ledger.
    pub fn add_sequence(&mut self, toks: &[u32], cache: LayerCaches, xlora_cache: Option<LayerCaches>)
        requires
            old(self).wf(),
            old(self).slots().len() + 2 <= usize::MAX,
        ensures
            final(self).wf(),
            old(self).disabled() ==> *final(self) == *old(self),
            !old(self).disabled() ==> {
                let n = old(self).slots().len();
                &&& final(self).index() == old(self).index().insert(toks@, n as usize)
                &&& final(self).disabled() == old(self).disabled()
                &&& final(self).device_on_host() == old(self).device_on_host()
                &&& final(self).target() == old(self).target()
                &&& if old(self).aux_index() is Some && xlora_cache is Some {
                    &&& final(self).aux_index() == Some(old(self).aux_index()->Some_0.insert(toks@, (n + 1) as usize))
                    &&& final(self).slots() == old(self).slots().push(cache).push(xlora_cache->Some_0)
                    &&& final(self).ledger() == old(self).ledger().push((n as usize, Some((n + 1) as usize)))
                } else {
                    &&& final(self).aux_index() == old(self).aux_index()
                    &&& final(self).slots() == old(self).slots().push(cache)
                    &&& final(self).ledger() == old(self).ledger().push((n as usize, None::<usize>))
                }
            },
    {
        if self.no_prefix_cache {
            return;
        }
        let n = self.slots.len();
        self.slots.push(cache);
        self.caches.insert(toks, n);
        if self.xlora_caches.is_some() && xlora_cache.is_some() {
            let c = xlora_cache.unwrap();
            self.slots.push(c);
            let mut x = self.xlora_caches.take().unwrap();
            x.insert(toks, n + 1);
            self.xlora_caches = Some(x);
            self.eviction_cache_ptrs.push((n, Some(n + 1)));
        } else {
            self.eviction_cache_ptrs.push((n, None));
        }
        proof {
            let l = self.eviction_cache_ptrs@;
            assert forall|i: int, j: int| 0 <= i < j < l.len()
                implies entry_last(#[trigger] l[i]) < (#[trigger] l[j]).0 by {
                if j == l.len() - 1 {
                    assert(entry_last(l[i]) < n);
                }
            }
        }
    }

    /// Finds the longest registered prefix of `toks`, moves its caches to the
    /// compute device and hands back copies of them with the tokens past the
    /// prefix. Nothing happens when the manager is disabled, `toks` is empty
    /// or no registered sequence is a prefix of `toks`.
    pub fn search_for_matching_cache(&mut self, toks: &[u32]) -> (r: Result<Option<MatchingCache>, Error>)
        requires
            old(self).wf(),
        ensures
            final(self).wf(),
            old(self).disabled() || toks@.len() == 0 || !has_ancestor(old(self).index(), toks@)
                ==> (r matches Ok(None) && *final(self) == *old(self)),
            r matches Ok(None) ==> *final(self) == *old(self),
            r is Err ==> *final(self) == *old(self),
            r matches Ok(Some(m)) ==> exists|k: Seq<u32>| is_longest_ancestor(old(self).index(), toks@, k)
                && Self::match_post(*old(self), *final(self), toks@, k, m),
            !old(self).disabled() && toks@.len() > 0 && has_ancestor(old(self).index(), toks@)
                ==> !(r matches Ok(None)),
            !old(self).disabled() && toks@.len() > 0 ==> forall|k: Seq<u32>|
                is_longest_ancestor(old(self).index(), toks@, k) && #[trigger] Self::match_at_rest(*old(self), k)
                ==> (r matches Ok(Some(_))),
    {
        if self.no_prefix_cache || toks.len() == 0 {
            return Ok(None);
        }
        let (anc, s) = match self.caches.get_longest_ancestor(toks) {
            Some(found) => found,
            None => return Ok(None),
        };
        let ghost k = anc@;
        proof {
            assert forall|k2: Seq<u32>| is_longest_ancestor(self.caches@, toks@, k2) implies k2 == k by {
                crate::laws::longest_ancestor_is_unique(self.caches@, toks@, k2, k);
            }
        }
        let np = match layers_to(&self.slots[s], &self.device, self.device_on_host) {
            Ok(l) => l,
            Err(e) => return Err(e),
        };
        let aux_slot = match &self.xlora_caches {
            Some(x) => x.get_exact(anc.as_slice()),
            None => None,
        };
        let xlora = match aux_slot {
            Some(t) => {
                let na = match layers_to(&self.slots[t], &self.device, self.device_on_host) {
                    Ok(l) => l,
                    Err(e) => return Err(e),
                };
                self.slots.set(s, np);
                self.slots.set(t, na);
                Some(clone_layers(&self.slots[t]))
            },
            None => {
                self.slots.set(s, np);
                None
            },
        };
        let normal = clone_layers(&self.slots[s]);
        let rest = tail(toks, anc.len());
        let m = MatchingCache { normal, xlora, toks: rest };
        proof {
            let a = *old(self);
            let b = *self;
            assert(a.index()[k] == s);
            assert(Self::only_slots_changed(a, b));
            assert(moved(a.slots()[s as int]@, b.slots()[s as int]@, a.device_on_host()));
            if a.aux_index() is Some && a.aux_index()->Some_0.contains_key(k) {
                let t = a.aux_index()->Some_0[k] as int;
                assert(aux_slot == Some(t as usize));
                assert(t != s as int);
            }
            assert(Self::match_post(a, b, toks@, k, m));
        }
        Ok(Some(m))
    }

    /// The index that `auxiliary` selects; a manager without an auxiliary
    /// index has an empty one.
    pub open spec fn selected_index(&self, auxiliary: bool) -> Map<Seq<u32>, usize> {
        if !auxiliary {
            self.index()
        } else if self.aux_index() is Some {
            self.aux_index()->Some_0
        } else {
            Map::empty()
        }
    }

    /// The tensors to persist for the primary index (or, with `auxiliary`,
    /// the auxiliary one): per entry, its per-layer key tensors stacked along
    /// a new leading dimension and named `K:<tokens>`, and likewise its value
    /// tensors named `V:<tokens>`, all copied to host memory.
    pub fn named_tensors(&self, auxiliary: bool) -> (r: Result<Vec<(String, Tensor)>, Error>)
        requires
            self.wf(),
        ensures
            r matches Ok(v) ==> saved_names(self.selected_index(auxiliary), v@),
            self.selected_index(auxiliary).dom().len() == 0 ==> (r matches Ok(v) && v@.len() == 0),
    {
        let idx = if !auxiliary {
            &self.caches
        } else {
            match &self.xlora_caches {
                Some(x) => x,
                None => {
                    let out: Vec<(String, Tensor)> = Vec::new();
                    assert(self.selected_index(auxiliary).dom() =~= Set::<Seq<u32>>::empty());
                    assert(saved_names(self.selected_index(auxiliary), out@));
                    return Ok(out);
                },
            }
        };
        assert(idx@ == self.selected_index(auxiliary));
        let entries = idx.entries();
        let host = host_device();
        let mut out: Vec<(String, Tensor)> = Vec::new();
        let mut e: usize = 0;
        while e < entries.len()
            invariant
                self.wf(),
                idx@ == self.selected_index(auxiliary),
                forall|k: Seq<u32>| #[trigger] idx@.contains_key(k) ==> idx@[k] < self.slots@.len(),
                entries@.len() == idx@.dom().len(),
                forall|i: int| 0 <= i < entries@.len() ==> idx@.contains_key(#[trigger] entries@[i].0@)
                    && idx@[entries@[i].0@] == entries@[i].1,
                forall|k: Seq<u32>| idx@.contains_key(k) ==> exists|i: int| 0 <= i < entries@.len() && #[trigger] entries@[i].0@ == k,
                e <= entries@.len(),
                out@.len() == 2 * e,
                forall|i: int| 0 <= i < e ==> #[trigger] saved_at(out@, i, entries@[i].0@),
            decreases entries@.len() - e,
        {
            let slot = entries[e].1;
            assert(idx@.contains_key(entries@[e as int].0@));
            let on_host = match layers_to(&self.slots[slot], &host, true) {
                Ok(l) => l,
                Err(err) => return Err(err),
            };
            let (ks, vs) = layer_tensors(&on_host);
            let k = match tensor_stack(&ks) {
                Ok(t) => t,
                Err(err) => return Err(err),
            };
            let v = match tensor_stack(&vs) {
                Ok(t) => t,
                Err(err) => return Err(err),
            };
            let toks = entries[e].0.as_slice();
            let ghost out0 = out@;
            out.push((tensor_name_of(TensorKind::Key, toks), k));
            out.push((tensor_name_of(TensorKind::Value, toks), v));
            proof {
                assert forall|i: int| 0 <= i < e + 1 implies #[trigger] saved_at(out@, i, entries@[i].0@) by {
                    if i < e {
                        assert(saved_at(out0, i, entries@[i].0@));
                        assert(out@[2 * i] == out0[2 * i]);
                        assert(out@[2 * i + 1] == out0[2 * i + 1]);
                    }
                }
            }
            e += 1;
        }
        proof {
            assert forall|i: int| 0 <= i < idx@.dom().len() implies #[trigger] saved_some_key(idx@, out@, i) by {
                let k = entries@[i].0@;
                assert(idx@.contains_key(k));
                assert(saved_at(out@, i, entries@[i].0@));
            }
            assert forall|k: Seq<u32>| #[trigger] idx@.contains_key(k) implies exists|i: int| 0 <= i < idx@.dom().len()
                && #[trigger] saved_at(out@, i, k) by {
                let i = choose|i: int| 0 <= i < entries@.len() && #[trigger] entries@[i].0@ == k;
                assert(saved_at(out@, i, entries@[i].0@));
            }
            assert(out@.len() == 2 * idx@.dom().len());
            assert(saved_names(idx@, out@));
        }
        Ok(out)
    }

    /// A name that an earlier tensor already had makes a duplicate.
    proof fn lemma_duplicate_found(&self, named: Seq<(String, Tensor)>, i: int, k: TensorKind, t: Seq<u32>)
        requires
            0 <= i < named.len(),
            named[i].0@ == tensor_name(k, t),
            names_kind(named.take(i), k, t),
        ensures
            has_duplicate(named),
    {
        let w = named.take(i);
        let j = choose|j: int| 0 <= j < w.len() && (#[trigger] w[j]).0@ == tensor_name(k, t);
        assert(named[j] == w[j]);
        assert(named[j].0@ == named[i].0@);
    }

    /// `b` is `a` after loading the entries that `named` holds into the
    /// index that `auxiliary` selects, the first `n_on_device` new entries
    /// placed on the given device and the rest in host memory.
    pub open spec fn load_post(a: Self, b: Self, named: Seq<(String, Tensor)>, auxiliary: bool, n_on_device: usize) -> bool {
        let n0 = a.slots().len();
        let ia = a.selected_index(auxiliary);
        let ib = b.selected_index(auxiliary);
        &&& b.disabled() == a.disabled()
        &&& b.device_on_host() == a.device_on_host()
        &&& b.target() == a.target()
        &&& if auxiliary {
            b.index() == a.index() && b.aux_index() is Some
        } else {
            b.aux_index() == a.aux_index()
        }
        &&& b.slots().len() >= n0
        &&& b.slots().subrange(0, n0 as int) == a.slots()
        &&& b.ledger() == a.ledger() + Seq::new((b.slots().len() - n0) as nat, |i: int| ((n0 + i) as usize, None::<usize>))
        &&& forall|t: Seq<u32>| #[trigger] names_key(named, t) ==> ib.contains_key(t) && ib[t] >= n0
        &&& forall|t: Seq<u32>| !#[trigger] names_key(named, t) ==> (ib.contains_key(t) == ia.contains_key(t)
            && (ia.contains_key(t) ==> ib[t] == ia[t]))
        &&& forall|i: int, l: int| n0 <= i < b.slots().len() && 0 <= l < b.slots()[i]@.len()
            ==> (#[trigger] b.slots()[i]@[l]) is Some
        &&& forall|i: int, l: int| n0 + n_on_device <= i < b.slots().len() && 0 <= l < b.slots()[i]@.len()
            ==> (#[trigger] b.slots()[i]@[l])->Some_0.on_host
        &&& exists|keys: Seq<Seq<u32>>| #[trigger] Self::loaded_keys(a, b, named, auxiliary, keys)
        &&& exists|h: bool| #[trigger] Self::placed_together(b, n0 as int, n_on_device as int, h)
    }

    /// `keys` are the distinct keys that `named` holds, the `c`-th of them on
    /// the `c`-th new slot: one new slot per key.
    pub open spec fn loaded_keys(a: Self, b: Self, named: Seq<(String, Tensor)>, auxiliary: bool, keys: Seq<Seq<u32>>) -> bool {
        let n0 = a.slots().len();
        &&& keys.len() == b.slots().len() - n0
        &&& keys.no_duplicates()
        &&& forall|t: Seq<u32>| names_key(named, t) <==> keys.contains(t)
        &&& forall|c: int| 0 <= c < keys.len() ==> #[trigger] b.selected_index(auxiliary)[keys[c]] == n0 + c
    }

    /// The first `n` slots from `n0` on have every layer placed alike, as
    /// `on_host` says (on the device given to the load).
    pub open spec fn placed_together(b: Self, n0: int, n: int, on_host: bool) -> bool {
        forall|i: int, l: int| n0 <= i < b.slots().len() && i < n0 + n && 0 <= l < b.slots()[i]@.len()
            ==> (#[trigger] b.slots()[i]@[l])->Some_0.on_host == on_host
    }

    /// Loads persisted tensors (as `named_tensors` makes them) into the
    /// primary index, or with `auxiliary` into the auxiliary one, keeping
    /// what is there. Each distinct key becomes a new slot at the end of the
    /// eviction ledger; the first `n_on_device` are placed on `device`, the
    /// rest in host memory. Nothing changes unless every tensor loads.
    pub fn load_tensors(&mut self, named: &Vec<(String, Tensor)>, auxiliary: bool, device: &Device, n_on_device: usize)
        -> (r: Result<(), LoadError>)
        requires
            old(self).wf(),
            old(self).slots().len() + named@.len() <= usize::MAX,
        ensures
            final(self).wf(),
            r is Err ==> *final(self) == *old(self),
            auxiliary && old(self).aux_index() is None ==> (r is Ok && *final(self) == *old(self)),
            !(auxiliary && old(self).aux_index() is None) ==> {
                &&& (r matches Err(LoadError::BadName)) <==> exists|i: int| 0 <= i < named@.len()
                    && !is_tensor_name((#[trigger] named@[i]).0@)
                &&& (r matches Err(LoadError::Duplicate)) <==> (all_names_parse(named@) && has_duplicate(named@))
                &&& (r matches Err(LoadError::MissingCounterpart)) <==> (all_names_parse(named@) && !has_duplicate(named@)
                    && one_kind_only(named@))
                &&& r is Ok ==> Self::load_post(*old(self), *final(self), named@, auxiliary, n_on_device)
            },
            named@.len() == 0 ==> r is Ok,
    {
        if auxiliary && self.xlora_caches.is_none() {
            return Ok(());
        }
        // Read every name.
        let mut parsed: Vec<(TensorKind, Vec<u32>)> = Vec::new();
        let mut i: usize = 0;
        while i < named.len()
            invariant
                *self == *old(self),
                self.wf(),
                !(auxiliary && self.xlora_caches is None),
                i <= named@.len(),
                parsed@.len() == i,
                forall|j: int| 0 <= j < i ==> tensor_name((#[trigger] parsed@[j]).0, parsed@[j].1@) == named@[j].0@,
            decreases named@.len() - i,
        {
            match parse_tensor_name(named[i].0.as_str()) {
                Some(p) => parsed.push(p),
                None => {
                    proof {
                        assert(!is_tensor_name(named@[i as int].0@));
                    }
                    return Err(LoadError::BadName);
                },
            }
            i += 1;
        }
        proof {
            assert forall|j: int| 0 <= j < named@.len() implies is_tensor_name((#[trigger] named@[j]).0@) by {
                assert(tensor_name(parsed@[j].0, parsed@[j].1@) == named@[j].0@);
            }
        }
        // Group the tensors by key, in order of first appearance.
        let mut keys: Vec<Vec<u32>> = Vec::new();
        let mut ks: Vec<Option<Tensor>> = Vec::new();
        let mut vs: Vec<Option<Tensor>> = Vec::new();
        i = 0;
        while i < named.len()
            invariant
                *self == *old(self),
                self.wf(),
                !(auxiliary && self.xlora_caches is None),
                i <= named@.len(),
                parsed@.len() == named@.len(),
                forall|j: int| 0 <= j < named@.len() ==> tensor_name((#[trigger] parsed@[j]).0, parsed@[j].1@) == named@[j].0@,
                forall|j: int| 0 <= j < named@.len() ==> is_tensor_name((#[trigger] named@[j]).0@),
                keys@.len() == ks@.len(),
                keys@.len() == vs@.len(),
                keys@.len() <= i,
                forall|a: int, b: int| 0 <= a < b < keys@.len() ==> (#[trigger] keys@[a])@ != (#[trigger] keys@[b])@,
                forall|t: Seq<u32>| names_key(named@.take(i as int), t) <==> exists|q: int| 0 <= q < keys@.len() && (#[trigger] keys@[q])@ == t,
                forall|c: int| 0 <= c < keys@.len() ==> (ks@[c] is Some <==> names_kind(named@.take(i as int), TensorKind::Key, (#[trigger] keys@[c])@)),
                forall|c: int| 0 <= c < keys@.len() ==> (vs@[c] is Some <==> names_kind(named@.take(i as int), TensorKind::Value, (#[trigger] keys@[c])@)),
                !has_duplicate(named@.take(i as int)),
            decreases named@.len() - i,
        {
            let toks = &parsed[i].1;
            let ghost keys0 = keys@;
            let mut q: usize = 0;
            while q < keys.len() && !tokens_equal(&keys[q], toks)
                invariant
                    q <= keys@.len(),
                    forall|c: int| 0 <= c < q ==> (#[trigger] keys@[c])@ != toks@,
                decreases keys@.len() - q,
            {
                q += 1;
            }
            let t = tensor_clone(&named[i].1);
            let is_key = match parsed[i].0 {
                TensorKind::Key => true,
                TensorKind::Value => false,
            };
            if q == keys.len() {
                keys.push(copy_tokens(toks.as_slice()));
                if is_key {
                    ks.push(Some(t));
                    vs.push(None);
                } else {
                    ks.push(None);
                    vs.push(Some(t));
                }
            } else if is_key {
                if ks[q].is_some() {
                    proof { self.lemma_duplicate_found(named@, i as int, TensorKind::Key, toks@); }
                    return Err(LoadError::Duplicate);
                }
                ks.set(q, Some(t));
            } else {
                if vs[q].is_some() {
                    proof { self.lemma_duplicate_found(named@, i as int, TensorKind::Value, toks@); }
                    return Err(LoadError::Duplicate);
                }
                vs.set(q, Some(t));
            }
            proof {
                let u = named@.take(i + 1);
                let w = named@.take(i as int);
                let kind = parsed@[i as int].0;
                let other = if kind == TensorKind::Key { TensorKind::Value } else { TensorKind::Key };
                assert(named@[i as int].0@ == tensor_name(kind, toks@));
                assert(u =~= w.push(named@[i as int]));
                assert forall|c: int| 0 <= c < keys@.len() implies
                    (ks@[c] is Some <==> names_kind(u, TensorKind::Key, (#[trigger] keys@[c])@))
                    && (vs@[c] is Some <==> names_kind(u, TensorKind::Value, keys@[c]@)) by {
                    let kc = keys@[c]@;
                    lemma_names_kind_push(w, named@[i as int], TensorKind::Key, kc);
                    lemma_names_kind_push(w, named@[i as int], TensorKind::Value, kc);
                    crate::laws::tensor_names_round_trip(kind, toks@, TensorKind::Key, kc);
                    crate::laws::tensor_names_round_trip(kind, toks@, TensorKind::Value, kc);
                    if c == q {
                        if q == keys0.len() {
                            assert(!names_key(w, toks@)) by {
                                if names_key(w, toks@) {
                                    let c2 = choose|c2: int| 0 <= c2 < keys0.len() && (#[trigger] keys0[c2])@ == toks@;
                                }
                            }
                        }
                    } else {
                        assert(kc != toks@);
                    }
                }
                assert(!has_duplicate(u)) by {
                    if has_duplicate(u) {
                        let (j1, j2) = choose|j1: int, j2: int| 0 <= j1 < j2 < u.len() && (#[trigger] u[j1]).0@ == (#[trigger] u[j2]).0@;
                        if j2 < i {
                            assert(w[j1] == u[j1] && w[j2] == u[j2]);
                        } else {
                            assert(w[j1] == u[j1]);
                            assert(names_kind(w, kind, toks@));
                            lemma_names_kind_push(w, named@[i as int], kind, toks@);
                            if q == keys0.len() {
                                let c2 = choose|c2: int| 0 <= c2 < keys0.len() && (#[trigger] keys0[c2])@ == toks@;
                            } else {
                                assert(keys0[q as int]@ == toks@);
                            }
                        }
                    }
                }
                assert(u =~= w.push(named@[i as int]));
                assert(forall|c: int| 0 <= c < keys0.len() ==> keys@[c] == keys0[c]);
                assert(keys@[q as int]@ == toks@);
                assert forall|t: Seq<u32>| names_key(u, t) implies exists|c: int| 0 <= c < keys@.len() && (#[trigger] keys@[c])@ == t by {
                    let j = choose|j: int| 0 <= j < u.len() && names_entry((#[trigger] u[j]).0@, t);
                    if j == i {
                        lemma_name_tokens(parsed@[j].0, parsed@[j].1@, t);
                        assert(keys@[q as int]@ == t);
                    } else {
                        assert(w[j] == u[j]);
                        assert(names_key(w, t));
                        let c = choose|c: int| 0 <= c < keys0.len() && (#[trigger] keys0[c])@ == t;
                        assert(keys@[c]@ == t);
                    }
                }
                assert forall|t: Seq<u32>| (exists|c: int| 0 <= c < keys@.len() && (#[trigger] keys@[c])@ == t) implies names_key(u, t) by {
                    let c = choose|c: int| 0 <= c < keys@.len() && (#[trigger] keys@[c])@ == t;
                    if c < keys0.len() {
                        assert(keys0[c]@ == t);
                        assert(names_key(w, t));
                        let j = choose|j: int| 0 <= j < w.len() && names_entry((#[trigger] w[j]).0@, t);
                        assert(u[j] == w[j]);
                    } else {
                        assert(t == toks@);
                        assert(names_entry(u[i as int].0@, t));
                    }
                }
            }
            i += 1;
        }
        assert(named@.take(named@.len() as int) =~= named@);
        // Every key needs both of its tensors.
        let mut q: usize = 0;
        while q < keys.len()
            invariant
                *self == *old(self),
                self.wf(),
                !(auxiliary && self.xlora_caches is None),
                forall|j: int| 0 <= j < named@.len() ==> is_tensor_name((#[trigger] named@[j]).0@),
                !has_duplicate(named@),
                keys@.len() == ks@.len(),
                keys@.len() == vs@.len(),
                q <= keys@.len(),
                forall|c: int| 0 <= c < q ==> (#[trigger] ks@[c]) is Some && vs@[c] is Some,
                forall|t: Seq<u32>| names_key(named@, t) <==> exists|c: int| 0 <= c < keys@.len() && (#[trigger] keys@[c])@ == t,
                forall|c: int| 0 <= c < keys@.len() ==> (ks@[c] is Some <==> names_kind(named@, TensorKind::Key, (#[trigger] keys@[c])@)),
                forall|c: int| 0 <= c < keys@.len() ==> (vs@[c] is Some <==> names_kind(named@, TensorKind::Value, (#[trigger] keys@[c])@)),
            decreases keys@.len() - q,
        {
            if ks[q].is_none() || vs[q].is_none() {
                proof {
                    let t = keys@[q as int]@;
                    assert(names_key(named@, t));
                }
                return Err(LoadError::MissingCounterpart);
            }
            q += 1;
        }
        proof {
            assert(!one_kind_only(named@)) by {
                if one_kind_only(named@) {
                    let t = choose|t: Seq<u32>| #[trigger] names_key(named@, t) && !(names_kind(named@, TensorKind::Key, t)
                        && names_kind(named@, TensorKind::Value, t));
                    let c = choose|c: int| 0 <= c < keys@.len() && (#[trigger] keys@[c])@ == t;
                    assert(ks@[c] is Some && vs@[c] is Some);
                }
            }
        }
        // Split each entry into its layers and place them.
        let host = host_device();
        let device_on_host = device_is_host(device);
        let mut placed: Vec<LayerCaches> = Vec::new();
        let mut p: usize = 0;
        while p < keys.len()
            invariant
                *self == *old(self),
                self.wf(),
                !(auxiliary && self.xlora_caches is None),
                keys@.len() <= named@.len(),
                forall|j: int| 0 <= j < named@.len() ==> is_tensor_name((#[trigger] named@[j]).0@),
                forall|a: int, b: int| 0 <= a < b < keys@.len() ==> (#[trigger] keys@[a])@ != (#[trigger] keys@[b])@,
                forall|t: Seq<u32>| names_key(named@, t) <==> exists|q: int| 0 <= q < keys@.len() && (#[trigger] keys@[q])@ == t,
                keys@.len() == ks@.len(),
                keys@.len() == vs@.len(),
                p <= keys@.len(),
                placed@.len() == p,
                forall|c: int| 0 <= c < keys@.len() ==> (#[trigger] ks@[c]) is Some && vs@[c] is Some,
                !has_duplicate(named@),
                !one_kind_only(named@),
                forall|c: int, l: int| 0 <= c < p && c < n_on_device && 0 <= l < placed@[c]@.len()
                    ==> (#[trigger] placed@[c]@[l])->Some_0.on_host == device_on_host,
                forall|c: int, l: int| 0 <= c < p && 0 <= l < placed@[c]@.len() ==> (#[trigger] placed@[c]@[l]) is Some,
                forall|c: int, l: int| n_on_device <= c < p && 0 <= l < placed@[c]@.len()
                    ==> (#[trigger] placed@[c]@[l])->Some_0.on_host,
            decreases keys@.len() - p,
        {
            let (k, v) = match (&ks[p], &vs[p]) {
                (Some(k), Some(v)) => (k, v),
                _ => return Err(LoadError::MissingCounterpart),
            };
            let kl = match unstack(k) {
                Ok(l) => l,
                Err(e) => return Err(e),
            };
            let vl = match unstack(v) {
                Ok(l) => l,
                Err(e) => return Err(e),
            };
            if kl.len() != vl.len() {
                return Err(LoadError::LayerCountMismatch);
            }
            let layers = if p < n_on_device {
                place_layers(&kl, &vl, device, device_on_host)
            } else {
                place_layers(&kl, &vl, &host, true)
            };
            match layers {
                Ok(l) => placed.push(l),
                Err(e) => return Err(e),
            }
            p += 1;
        }
        // Commit.
        let ghost pre = *self;
        let ghost n0 = self.slots@.len();
        p = 0;
        while p < keys.len()
            invariant
                pre == *old(self),
                n0 == pre.slots().len(),
                pre.wf(),
                !(auxiliary && pre.aux_index() is None),
                keys@.len() == placed@.len(),
                keys@.len() <= named@.len(),
                n0 + named@.len() <= usize::MAX,
                p <= keys@.len(),
                self.wf(),
                self.slots@.len() == n0 + p,
                self.slots@.subrange(0, n0 as int) == pre.slots(),
                forall|c: int| 0 <= c < p ==> (#[trigger] placed@[c])@ == self.slots@[n0 + c]@,
                forall|c: int, l: int| 0 <= c < keys@.len() && 0 <= l < placed@[c]@.len() ==> (#[trigger] placed@[c]@[l]) is Some,
                forall|c: int, l: int| n_on_device <= c < keys@.len() && 0 <= l < placed@[c]@.len()
                    ==> (#[trigger] placed@[c]@[l])->Some_0.on_host,
                forall|c: int, l: int| 0 <= c < keys@.len() && c < n_on_device && 0 <= l < placed@[c]@.len()
                    ==> (#[trigger] placed@[c]@[l])->Some_0.on_host == device_on_host,
                self.eviction_cache_ptrs@ == pre.ledger() + Seq::new(p as nat, |c: int| ((n0 + c) as usize, None::<usize>)),
                self.no_prefix_cache == pre.disabled(),
                self.device_on_host == pre.device_on_host(),
                self.n_on_device == pre.target(),
                if auxiliary {
                    self.caches@ == pre.index() && self.xlora_caches is Some
                } else {
                    self.aux_index() == pre.aux_index()
                },
                forall|a: int, b: int| 0 <= a < b < keys@.len() ==> (#[trigger] keys@[a])@ != (#[trigger] keys@[b])@,
                forall|j: int| 0 <= j < named@.len() ==> is_tensor_name((#[trigger] named@[j]).0@),
                forall|t: Seq<u32>| names_key(named@, t) <==> exists|q: int| 0 <= q < keys@.len() && (#[trigger] keys@[q])@ == t,
                forall|c: int| 0 <= c < p ==> self.selected_index(auxiliary).contains_key((#[trigger] keys@[c])@)
                    && self.selected_index(auxiliary)[keys@[c]@] == n0 + c,
                forall|t: Seq<u32>| fresh(keys@, p as int, t)
                    ==> #[trigger] kept(pre.selected_index(auxiliary), self.selected_index(auxiliary), t),
            decreases keys@.len() - p,
        {
            let ghost before = *self;
            let slot = self.slots.len();
            let layers = clone_layers(&placed[p]);
            self.slots.push(layers);
            if !auxiliary {
                self.caches.insert(keys[p].as_slice(), slot);
            } else {
                let mut x = self.xlora_caches.take().unwrap();
                x.insert(keys[p].as_slice(), slot);
                self.xlora_caches = Some(x);
            }
            self.eviction_cache_ptrs.push((slot, None));
            proof {
                let key = keys@[p as int]@;
                assert(self.slots@.subrange(0, n0 as int) =~= before.slots@.subrange(0, n0 as int));
                assert(self.selected_index(auxiliary) == before.selected_index(auxiliary).insert(key, slot));
                assert forall|t: Seq<u32>| fresh(keys@, p + 1, t)
                    implies #[trigger] kept(pre.selected_index(auxiliary), self.selected_index(auxiliary), t) by {
                    assert(keys@[p as int]@ != t);
                    assert(fresh(keys@, p as int, t));
                    assert(kept(pre.selected_index(auxiliary), before.selected_index(auxiliary), t));
                }
                assert forall|c: int| 0 <= c < p + 1 implies self.selected_index(auxiliary).contains_key((#[trigger] keys@[c])@)
                    && self.selected_index(auxiliary)[keys@[c]@] == n0 + c by {
                    if c < p {
                        assert(keys@[c]@ != key);
                    }
                }
            }
            p += 1;
        }
        proof {
            let b = *self;
            let ia = pre.selected_index(auxiliary);
            let ib = b.selected_index(auxiliary);
            assert forall|t: Seq<u32>| #[trigger] names_key(named@, t) implies ib.contains_key(t) && ib[t] >= n0 by {
                let q = choose|q: int| 0 <= q < keys@.len() && (#[trigger] keys@[q])@ == t;
            }
            assert forall|t: Seq<u32>| !#[trigger] names_key(named@, t) implies (ib.contains_key(t) == ia.contains_key(t)
                && (ia.contains_key(t) ==> ib[t] == ia[t])) by {
                assert(fresh(keys@, keys@.len() as int, t));
                assert(kept(ia, ib, t));
            }
            assert forall|i: int, l: int| n0 <= i < b.slots().len() && 0 <= l < b.slots()[i]@.len()
                implies (#[trigger] b.slots()[i]@[l]) is Some by {
                assert(placed@[i - n0]@ == b.slots()[i]@);
                assert(placed@[i - n0]@[l] is Some);
            }
            assert forall|i: int, l: int| n0 + n_on_device <= i < b.slots().len() && 0 <= l < b.slots()[i]@.len()
                implies (#[trigger] b.slots()[i]@[l])->Some_0.on_host by {
                assert(placed@[i - n0]@ == b.slots()[i]@);
                assert(placed@[i - n0]@[l]->Some_0.on_host);
            }
            assert(b.ledger() == pre.ledger() + Seq::new((b.slots().len() - n0) as nat, |i: int| ((n0 + i) as usize, None::<usize>)));
            let kv = keys@.map_values(|v: Vec<u32>| v@);
            assert forall|a: int, c: int| 0 <= a < kv.len() && 0 <= c < kv.len() && a != c implies kv[a] != kv[c] by {
                if a < c {
                    assert(keys@[a]@ != keys@[c]@);
                } else {
                    assert(keys@[c]@ != keys@[a]@);
                }
            }
            assert forall|t: Seq<u32>| names_key(named@, t) <==> kv.contains(t) by {
                if names_key(named@, t) {
                    let q = choose|q: int| 0 <= q < keys@.len() && (#[trigger] keys@[q])@ == t;
                    assert(kv[q] == t);
                }
                if kv.contains(t) {
                    let q = choose|q: int| 0 <= q < kv.len() && kv[q] == t;
                    assert(keys@[q]@ == t);
                }
            }
            assert forall|c: int| 0 <= c < kv.len() implies #[trigger] ib[kv[c]] == n0 + c by {
                assert(kv[c] == keys@[c]@);
            }
            assert(Self::loaded_keys(pre, b, named@, auxiliary, kv));
            assert forall|i: int, l: int| n0 <= i < b.slots().len() && i < n0 + n_on_device && 0 <= l < b.slots()[i]@.len()
                implies (#[trigger] b.slots()[i]@[l])->Some_0.on_host == device_on_host by {
                assert(placed@[i - n0]@ == b.slots()[i]@);
                assert(placed@[i - n0]@[l]->Some_0.on_host == device_on_host);
            }
            assert(Self::placed_together(b, n0 as int, n_on_device as int, device_on_host));
            assert(Self::load_post(pre, b, named@, auxiliary, n_on_device));
        }
        Ok(())
    }

    /// A copy of the caches registered under exactly `toks`, without moving
    /// them.
    pub fn cached(&self, toks: &[u32]) -> (r: Option<LayerCaches>)
        requires
            self.wf(),
        ensures
            match r {
                Some(c) => self.index().contains_key(toks@) && c@ == self.slots()[self.index()[toks@] as int]@,
                None => !self.index().contains_key(toks@),
            },
    {
        match self.caches.get_exact(toks) {
            Some(s) => Some(clone_layers(&self.slots[s])),
            None => None,
        }
    }

    /// The number of keys in the primary index.
    pub fn len(&self) -> (r: usize)
        ensures
            r == self.index().dom().len(),
    {
        self.caches.len()
    }

    /// For each ledger entry, oldest first, whether its cache is resident on
    /// the compute device.
    pub fn ledger_resident(&self) -> (r: Vec<bool>)
        requires
            self.wf(),
        ensures
            r@.len() == self.ledger().len(),
            forall|i: int| 0 <= i < r@.len() ==> r@[i] == resident(self.slots()[(#[trigger] self.ledger()[i]).0 as int]@),
    {
        let mut r: Vec<bool> = Vec::new();
        let mut i: usize = 0;
        while i < self.eviction_cache_ptrs.len()
            invariant
                self.wf(),
                i <= self.ledger().len(),
                r@.len() == i,
                forall|j: int| 0 <= j < i ==> r@[j] == resident(self.slots()[(#[trigger] self.ledger()[j]).0 as int]@),
            decreases self.ledger().len() - i,
        {
            let p = self.eviction_cache_ptrs[i].0;
            assert(entry_last(self.eviction_cache_ptrs@[i as int]) < self.slots@.len());
            r.push(is_resident(&self.slots[p]));
            i += 1;
        }
        r
    }

    /// Whether this manager keeps an auxiliary index.
    pub fn has_auxiliary(&self) -> (r: bool)
        ensures
            r == self.aux_index() is Some,
    {
        self.xlora_caches.is_some()
    }
}

} // verus!
