use candle_core::{Device, Tensor};
use prefix_cache::cache::{KvPair, LayerCaches};
use prefix_cache::manager::{LoadError, MatchingCache, PrefixCacheManager};

fn t(vals: &[f32]) -> Tensor {
    Tensor::new(vals, &Device::Cpu).unwrap()
}

/// A cache of `layers` layers whose layer `l` holds `[base + l, base + l + 0.5]`
/// as keys and their negation as values.
fn cache(layers: usize, base: f32, on_host: bool) -> LayerCaches {
    let mut out = Vec::new();
    for l in 0..layers {
        let x = base + l as f32;
        out.push(Some(KvPair {
            k: t(&[x, x + 0.5]),
            v: t(&[-x, -x - 0.5]),
            on_host,
        }));
    }
    out
}

fn values(c: &LayerCaches) -> Vec<(Vec<f32>, Vec<f32>)> {
    c.iter()
        .map(|l| {
            let kv = l.as_ref().unwrap();
            (kv.k.to_vec1::<f32>().unwrap(), kv.v.to_vec1::<f32>().unwrap())
        })
        .collect()
}

fn matched(m: Option<MatchingCache>) -> MatchingCache {
    m.expect("a match")
}

#[test]
fn longest_prefix_scenario() {
    let mut m = PrefixCacheManager::new(Device::Cpu, 2, false, false);
    m.add_sequence(&[1, 2, 3], cache(2, 10.0, true), None);
    m.add_sequence(&[1, 2, 3, 4, 5], cache(2, 20.0, true), None);

    let r = matched(m.search_for_matching_cache(&[1, 2, 3, 4, 5, 6]).unwrap());
    assert_eq!(r.toks, vec![6]);
    assert_eq!(values(&r.normal), values(&cache(2, 20.0, true)));
    assert!(r.xlora.is_none());

    let r = matched(m.search_for_matching_cache(&[1, 2, 3, 9]).unwrap());
    assert_eq!(r.toks, vec![9]);
    assert_eq!(values(&r.normal), values(&cache(2, 10.0, true)));

    // Neither registered sequence is a prefix of [1, 2, 9].
    assert!(m.search_for_matching_cache(&[1, 2, 9]).unwrap().is_none());

    assert!(m.search_for_matching_cache(&[9, 9, 9]).unwrap().is_none());
}

#[test]
fn exact_match_leaves_no_tokens() {
    let mut m = PrefixCacheManager::new(Device::Cpu, 2, false, false);
    m.add_sequence(&[4, 5], cache(1, 1.0, true), None);
    let r = matched(m.search_for_matching_cache(&[4, 5]).unwrap());
    assert!(r.toks.is_empty());
    assert_eq!(values(&r.normal), values(&cache(1, 1.0, true)));
}

#[test]
fn last_insert_of_a_key_wins() {
    let mut m = PrefixCacheManager::new(Device::Cpu, 2, false, false);
    m.add_sequence(&[7, 8], cache(1, 1.0, true), None);
    m.add_sequence(&[7, 8], cache(1, 2.0, true), None);
    assert_eq!(m.len(), 1);
    let r = matched(m.search_for_matching_cache(&[7, 8, 9]).unwrap());
    assert_eq!(values(&r.normal), values(&cache(1, 2.0, true)));
}

#[test]
fn empty_manager_and_empty_query_find_nothing() {
    let mut m = PrefixCacheManager::new(Device::Cpu, 1, false, false);
    assert!(m.search_for_matching_cache(&[1, 2, 3]).unwrap().is_none());
    m.add_sequence(&[1], cache(1, 0.0, false), None);
    assert!(m.search_for_matching_cache(&[]).unwrap().is_none());
    // The search moved nothing: the cache is still resident.
    assert_eq!(m.ledger_resident(), vec![true]);
}

#[test]
fn disabled_manager_does_nothing() {
    let mut m = PrefixCacheManager::new(Device::Cpu, 0, true, true);
    m.add_sequence(&[1, 2], cache(2, 0.0, false), Some(cache(2, 5.0, false)));
    assert_eq!(m.len(), 0);
    assert!(m.ledger_resident().is_empty());
    assert!(m.search_for_matching_cache(&[1, 2, 3]).unwrap().is_none());
    assert_eq!(m.evict_to_cpu().unwrap(), 0);
    assert_eq!(m.evict_all_to_cpu().unwrap(), 0);
}

#[test]
fn eviction_moves_oldest_first() {
    let mut m = PrefixCacheManager::new(Device::Cpu, 1, false, false);
    m.add_sequence(&[1], cache(2, 1.0, false), None);
    m.add_sequence(&[2], cache(2, 2.0, false), None);
    m.add_sequence(&[3], cache(2, 3.0, false), None);
    assert_eq!(m.ledger_resident(), vec![true, true, true]);
    assert_eq!(m.evict_to_cpu().unwrap(), 2);
    assert_eq!(m.ledger_resident(), vec![false, false, true]);
}

#[test]
fn eviction_within_target_moves_nothing() {
    let mut m = PrefixCacheManager::new(Device::Cpu, 3, false, false);
    m.add_sequence(&[1], cache(1, 1.0, false), None);
    m.add_sequence(&[2], cache(1, 2.0, false), None);
    assert_eq!(m.evict_to_cpu().unwrap(), 0);
    assert_eq!(m.ledger_resident(), vec![true, true]);
}

#[test]
fn eviction_skips_caches_without_a_first_layer() {
    let mut m = PrefixCacheManager::new(Device::Cpu, 0, false, false);
    let mut c = cache(2, 1.0, false);
    c[0] = None;
    m.add_sequence(&[1], c, None);
    m.add_sequence(&[2], cache(1, 2.0, false), None);
    assert_eq!(m.ledger_resident(), vec![false, true]);
    assert_eq!(m.evict_to_cpu().unwrap(), 2);
    assert_eq!(m.ledger_resident(), vec![false, false]);
}

#[test]
fn search_does_not_reorder_eviction() {
    let mut m = PrefixCacheManager::new(Device::Cpu, 1, false, false);
    m.add_sequence(&[1], cache(1, 1.0, false), None);
    m.add_sequence(&[2], cache(1, 2.0, false), None);
    m.add_sequence(&[3], cache(1, 3.0, false), None);
    // The compute device here is host memory, so the touched entry leaves the
    // device; the others keep their order.
    assert!(m.search_for_matching_cache(&[1, 5]).unwrap().is_some());
    assert_eq!(m.ledger_resident(), vec![false, true, true]);
    assert_eq!(m.evict_to_cpu().unwrap(), 2);
    assert_eq!(m.ledger_resident(), vec![false, false, true]);
}

#[test]
fn evict_all_twice_is_stable() {
    let mut m = PrefixCacheManager::new(Device::Cpu, 2, false, false);
    m.add_sequence(&[1], cache(1, 1.0, false), None);
    m.add_sequence(&[2, 3], cache(1, 2.0, false), None);
    assert_eq!(m.evict_all_to_cpu().unwrap(), 2);
    let first = m.ledger_resident();
    assert_eq!(first, vec![false, false]);
    assert_eq!(m.evict_all_to_cpu().unwrap(), 2);
    assert_eq!(m.ledger_resident(), first);
}

#[test]
fn auxiliary_cache_follows_its_primary() {
    let mut m = PrefixCacheManager::new(Device::Cpu, 0, true, false);
    m.add_sequence(&[1, 2], cache(2, 1.0, false), Some(cache(2, 7.0, false)));
    let r = matched(m.search_for_matching_cache(&[1, 2, 3]).unwrap());
    assert_eq!(r.toks, vec![3]);
    assert_eq!(values(&r.xlora.unwrap()), values(&cache(2, 7.0, true)));
    assert_eq!(m.evict_all_to_cpu().unwrap(), 1);
}

#[test]
fn save_then_load_round_trip() {
    let mut m = PrefixCacheManager::new(Device::Cpu, 2, false, false);
    m.add_sequence(&[1, 2, 3], cache(2, 10.0, true), None);
    m.add_sequence(&[4], cache(3, 20.0, true), None);
    let named = m.named_tensors(false).unwrap();
    assert_eq!(named.len(), 4);
    let mut names: Vec<String> = named.iter().map(|(n, _)| n.clone()).collect();
    names.sort();
    assert_eq!(names, vec!["K:1;2;3", "K:4", "V:1;2;3", "V:4"]);
    let stacked = &named.iter().find(|(n, _)| n == "K:4").unwrap().1;
    assert_eq!(stacked.dims(), &[3, 2]);

    let mut fresh = PrefixCacheManager::new(Device::Cpu, 2, false, false);
    fresh.load_tensors(&named, false, &Device::Cpu, 1).unwrap();
    assert_eq!(fresh.len(), 2);
    let r = matched(fresh.search_for_matching_cache(&[1, 2, 3, 8]).unwrap());
    assert_eq!(values(&r.normal), values(&cache(2, 10.0, true)));
    let r = matched(fresh.search_for_matching_cache(&[4]).unwrap());
    assert_eq!(values(&r.normal), values(&cache(3, 20.0, true)));
}

#[test]
fn load_places_only_the_first_entries_on_device() {
    let mut m = PrefixCacheManager::new(Device::Cpu, 2, false, false);
    m.add_sequence(&[1], cache(1, 1.0, true), None);
    m.add_sequence(&[2], cache(1, 2.0, true), None);
    m.add_sequence(&[3], cache(1, 3.0, true), None);
    let named = m.named_tensors(false).unwrap();
    let mut fresh = PrefixCacheManager::new(Device::Cpu, 2, false, false);
    fresh.load_tensors(&named, false, &Device::Cpu, 1).unwrap();
    // One new entry per key; with host memory as the load device every layer
    // of every entry ends up on host.
    assert_eq!(fresh.ledger_resident(), vec![false, false, false]);
    for k in [1u32, 2, 3] {
        assert_eq!(placements(&fresh.cached(&[k]).unwrap()), vec![Some(true)]);
    }
}

#[test]
fn load_extends_what_is_there() {
    let mut m = PrefixCacheManager::new(Device::Cpu, 2, false, false);
    m.add_sequence(&[5, 6], cache(1, 1.0, true), None);
    let named = m.named_tensors(false).unwrap();
    let mut other = PrefixCacheManager::new(Device::Cpu, 2, false, false);
    other.add_sequence(&[9], cache(1, 9.0, true), None);
    other.load_tensors(&named, false, &Device::Cpu, 2).unwrap();
    assert_eq!(other.len(), 2);
    assert!(other.search_for_matching_cache(&[9]).unwrap().is_some());
    assert!(other.search_for_matching_cache(&[5, 6]).unwrap().is_some());
}

#[test]
fn load_rejects_a_bad_name() {
    let named = vec![("K:1".to_string(), t(&[1.0, 2.0]).unsqueeze(0).unwrap()), ("Q:1".to_string(), t(&[1.0]))];
    let mut m = PrefixCacheManager::new(Device::Cpu, 2, false, false);
    assert!(matches!(m.load_tensors(&named, false, &Device::Cpu, 1), Err(LoadError::BadName)));
    assert_eq!(m.len(), 0);
    let named = vec![("K:1;x".to_string(), t(&[1.0]))];
    assert!(matches!(m.load_tensors(&named, false, &Device::Cpu, 1), Err(LoadError::BadName)));
}

#[test]
fn load_rejects_a_missing_counterpart() {
    let named = vec![("K:1;2".to_string(), t(&[1.0, 2.0]).unsqueeze(0).unwrap())];
    let mut m = PrefixCacheManager::new(Device::Cpu, 2, false, false);
    assert!(matches!(m.load_tensors(&named, false, &Device::Cpu, 1), Err(LoadError::MissingCounterpart)));
    assert_eq!(m.len(), 0);
}

#[test]
fn load_rejects_a_duplicate() {
    let k = t(&[1.0, 2.0]).unsqueeze(0).unwrap();
    let named = vec![("K:3".to_string(), k.clone()), ("K:3".to_string(), k)];
    let mut m = PrefixCacheManager::new(Device::Cpu, 2, false, false);
    assert!(matches!(m.load_tensors(&named, false, &Device::Cpu, 1), Err(LoadError::Duplicate)));
}

#[test]
fn load_rejects_mismatched_layer_counts() {
    let k = Tensor::stack(&[t(&[1.0]), t(&[2.0])], 0).unwrap();
    let v = t(&[3.0]).unsqueeze(0).unwrap();
    let named = vec![("K:3".to_string(), k), ("V:3".to_string(), v)];
    let mut m = PrefixCacheManager::new(Device::Cpu, 2, false, false);
    assert!(matches!(m.load_tensors(&named, false, &Device::Cpu, 1), Err(LoadError::LayerCountMismatch)));
    assert_eq!(m.len(), 0);
}

#[test]
fn auxiliary_save_without_auxiliary_index_is_empty() {
    let mut m = PrefixCacheManager::new(Device::Cpu, 2, false, false);
    m.add_sequence(&[1], cache(1, 1.0, true), None);
    assert!(m.named_tensors(true).unwrap().is_empty());
}

#[test]
fn auxiliary_round_trip() {
    let mut m = PrefixCacheManager::new(Device::Cpu, 2, true, false);
    m.add_sequence(&[1, 2], cache(1, 1.0, true), Some(cache(1, 4.0, true)));
    let main = m.named_tensors(false).unwrap();
    let aux = m.named_tensors(true).unwrap();
    let mut fresh = PrefixCacheManager::new(Device::Cpu, 2, true, false);
    fresh.load_tensors(&main, false, &Device::Cpu, 2).unwrap();
    fresh.load_tensors(&aux, true, &Device::Cpu, 2).unwrap();
    let r = matched(fresh.search_for_matching_cache(&[1, 2]).unwrap());
    assert_eq!(values(&r.normal), values(&cache(1, 1.0, true)));
    assert_eq!(values(&r.xlora.unwrap()), values(&cache(1, 4.0, true)));
}

#[test]
fn new_pairs_record_host_placement() {
    let kv = KvPair::new(t(&[1.0]), t(&[2.0]));
    assert!(kv.on_host);
    assert_eq!(kv.v.to_vec1::<f32>().unwrap(), vec![2.0]);
}

#[test]
fn search_places_the_match_on_the_compute_device() {
    let mut m = PrefixCacheManager::new(Device::Cpu, 1, false, false);
    m.add_sequence(&[3, 4], cache(2, 1.0, false), None);
    let r = matched(m.search_for_matching_cache(&[3, 4, 5]).unwrap());
    assert!(r.normal.iter().all(|l| l.as_ref().unwrap().on_host));
    assert_eq!(m.ledger_resident(), vec![false]);
}

fn placements(c: &LayerCaches) -> Vec<Option<bool>> {
    c.iter().map(|l| l.as_ref().map(|kv| kv.on_host)).collect()
}

#[test]
fn evict_all_moves_every_populated_layer() {
    let mut m = PrefixCacheManager::new(Device::Cpu, 2, false, false);
    let mut c = cache(3, 1.0, false);
    c[0] = None;
    m.add_sequence(&[1], c, None);
    assert_eq!(m.ledger_resident(), vec![false]);
    assert_eq!(m.evict_all_to_cpu().unwrap(), 1);
    assert_eq!(placements(&m.cached(&[1]).unwrap()), vec![None, Some(true), Some(true)]);
    // Nothing is left to move: the second call succeeds and changes nothing.
    assert_eq!(m.evict_all_to_cpu().unwrap(), 1);
    assert_eq!(placements(&m.cached(&[1]).unwrap()), vec![None, Some(true), Some(true)]);
}

#[test]
fn eviction_moves_auxiliary_caches_with_their_primary() {
    let mut m = PrefixCacheManager::new(Device::Cpu, 0, true, false);
    m.add_sequence(&[1], cache(2, 1.0, false), Some(cache(2, 5.0, false)));
    assert_eq!(m.evict_to_cpu().unwrap(), 1);
    assert_eq!(placements(&m.cached(&[1]).unwrap()), vec![Some(true), Some(true)]);
    let r = matched(m.search_for_matching_cache(&[1]).unwrap());
    assert_eq!(values(&r.xlora.unwrap()), values(&cache(2, 5.0, true)));
}

#[test]
fn load_names_in_either_order() {
    let k = Tensor::stack(&[t(&[1.0, 2.0]), t(&[3.0, 4.0])], 0).unwrap();
    let v = Tensor::stack(&[t(&[5.0, 6.0]), t(&[7.0, 8.0])], 0).unwrap();
    let named = vec![("V:2;7".to_string(), v), ("K:2;7".to_string(), k)];
    let mut m = PrefixCacheManager::new(Device::Cpu, 2, false, false);
    m.load_tensors(&named, false, &Device::Cpu, 2).unwrap();
    let c = m.cached(&[2, 7]).unwrap();
    assert_eq!(values(&c), vec![(vec![1.0, 2.0], vec![5.0, 6.0]), (vec![3.0, 4.0], vec![7.0, 8.0])]);
}

#[test]
fn load_of_nothing_succeeds() {
    let mut m = PrefixCacheManager::new(Device::Cpu, 2, false, false);
    m.load_tensors(&Vec::new(), false, &Device::Cpu, 2).unwrap();
    assert_eq!(m.len(), 0);
}
