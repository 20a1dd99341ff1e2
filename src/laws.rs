//! Properties that relate several operations of the manager.
use crate::cache::{moved, resident};
use crate::index::is_longest_ancestor;
use crate::manager::{
    evicted_at, names_entry, names_key, resident_count, saved_at, saved_names, PrefixCacheManager,
};
use crate::names::{join, lemma_join_injective, lemma_parse_join, parse_list, tensor_name, TensorKind};
use vstd::prelude::*;

verus! {

/// Among the first `n` ledger entries at most `n` are resident.
pub proof fn lemma_resident_count_bound(slots: Seq<Vec<Option<crate::cache::KvPair>>>, ledger: Seq<(usize, Option<usize>)>, n: int)
    requires
        0 <= n,
    ensures
        resident_count(slots, ledger, n) <= n,
    decreases n,
{
    if n > 0 {
        lemma_resident_count_bound(slots, ledger, n - 1);
    }
}

/// The resident count never decreases along the ledger.
pub proof fn lemma_resident_count_monotone(slots: Seq<Vec<Option<crate::cache::KvPair>>>, ledger: Seq<(usize, Option<usize>)>, i: int, j: int)
    requires
        0 <= i <= j,
    ensures
        resident_count(slots, ledger, i) <= resident_count(slots, ledger, j),
    decreases j - i,
{
    if i < j {
        lemma_resident_count_monotone(slots, ledger, i, j - 1);
    }
}

/// A cache moved to host memory is not resident.
proof fn lemma_moved_not_resident(a: Seq<Option<crate::cache::KvPair>>, b: Seq<Option<crate::cache::KvPair>>)
    requires
        moved(a, b, true),
    ensures
        !resident(b),
{
    if b.len() > 0 && b[0] is Some {
        assert(b[0]->Some_0.on_host);
    }
}

/// After every ledger entry has been moved to host memory, no entry has
/// anything left to move, so moving them all again succeeds and changes
/// nothing (see the contract of `evict_all_to_cpu`).
pub proof fn evict_all_is_idempotent(a: PrefixCacheManager, b: PrefixCacheManager)
    requires
        PrefixCacheManager::evict_all_post(a, b),
    ensures
        b.ledger_at_rest(),
{
    assert forall|i: int| 0 <= i < b.ledger().len() implies PrefixCacheManager::entry_at_rest(b, #[trigger] b.ledger()[i]) by {
        assert(PrefixCacheManager::entry_moved(a, b, a.ledger()[i]));
    }
}

/// Eviction goes oldest first: when a newer resident cache was moved to host
/// memory, every older resident cache was too.
pub proof fn eviction_is_oldest_first(a: PrefixCacheManager, b: PrefixCacheManager, excess: nat, i: int, j: int)
    requires
        PrefixCacheManager::evict_post(a, b, excess),
        0 <= i < j < a.ledger().len(),
        resident(a.slots()[a.ledger()[i].0 as int]@),
        resident(a.slots()[a.ledger()[j].0 as int]@),
        !resident(b.slots()[a.ledger()[j].0 as int]@),
    ensures
        !resident(b.slots()[a.ledger()[i].0 as int]@),
{
    let l = a.ledger();
    assert(evicted_at(a.slots(), l, j, excess)) by {
        if !evicted_at(a.slots(), l, j, excess) {
            assert(b.slots()[l[j].0 as int] == a.slots()[l[j].0 as int]);
        }
    }
    lemma_resident_count_monotone(a.slots(), l, i + 1, j);
    assert(evicted_at(a.slots(), l, i, excess));
    lemma_moved_not_resident(a.slots()[l[i].0 as int]@, b.slots()[l[i].0 as int]@);
}

/// Every key that was saved is in the index after loading what was saved.
pub proof fn load_restores_saved_keys(
    a: PrefixCacheManager,
    saved: Seq<(String, candle_core::Tensor)>,
    before: PrefixCacheManager,
    after: PrefixCacheManager,
    auxiliary: bool,
    n_on_device: usize,
)
    requires
        saved_names(a.selected_index(auxiliary), saved),
        PrefixCacheManager::load_post(before, after, saved, auxiliary, n_on_device),
    ensures
        forall|k: Seq<u32>| #[trigger] a.selected_index(auxiliary).contains_key(k)
            ==> after.selected_index(auxiliary).contains_key(k),
{
    assert forall|k: Seq<u32>| #[trigger] a.selected_index(auxiliary).contains_key(k)
        implies after.selected_index(auxiliary).contains_key(k) by {
        let i = choose|i: int| 0 <= i < a.selected_index(auxiliary).dom().len() && #[trigger] saved_at(saved, i, k);
        assert(names_entry(saved[2 * i].0@, k));
        assert(names_key(saved, k));
    }
}

/// Reading back the name of a stacked tensor gives its tokens, and no two
/// entries share a name.
pub proof fn tensor_names_round_trip(k1: TensorKind, t1: Seq<u32>, k2: TensorKind, t2: Seq<u32>)
    ensures
        parse_list(join(t1)) == Some(t1),
        tensor_name(k1, t1) == tensor_name(k2, t2) ==> k1 == k2 && t1 == t2,
{
    lemma_parse_join(t1);
    if tensor_name(k1, t1) == tensor_name(k2, t2) {
        let n1 = tensor_name(k1, t1);
        let n2 = tensor_name(k2, t2);
        assert(n1.subrange(2, n1.len() as int) =~= join(t1));
        assert(n2.subrange(2, n2.len() as int) =~= join(t2));
        assert(n1[0] == n2[0]);
        lemma_join_injective(t1, t2);
    }
}

/// Of the keys that are prefixes of a query, the longest is unique.
pub proof fn longest_ancestor_is_unique(m: Map<Seq<u32>, usize>, q: Seq<u32>, k1: Seq<u32>, k2: Seq<u32>)
    requires
        is_longest_ancestor(m, q, k1),
        is_longest_ancestor(m, q, k2),
    ensures
        k1 == k2,
{
    assert(k1.len() == k2.len());
    assert(k1 =~= q.subrange(0, k1.len() as int));
    assert(k2 =~= q.subrange(0, k2.len() as int));
}

} // verus!
