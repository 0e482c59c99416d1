//! The decode cache of expert bytes.
use cascadia_engine_sparse_moe::inkling::expert_cache::{
    unleased, ExpertCache, ExpertCacheStats, OfferStep, ReadBuffer,
};

fn bytes(value: u8, length: usize) -> ReadBuffer {
    ReadBuffer::from_bytes(vec![value; length])
}

/// A cache with the settings left at their defaults.
fn cache(experts: usize, capacity: usize) -> ExpertCache {
    ExpertCache::new(experts, capacity, None, false)
}

fn history(c: &ExpertCache) -> (Vec<u64>, Vec<u64>, u64) {
    (c.frequency.clone(), c.last.clone(), c.clock)
}

#[test]
fn disabled_cache_and_unobserved_or_invalid_reads_retain_nothing() {
    let mut off = cache(2, 0);
    assert!(off.lookup(&[0]).is_none());
    let mut cache = cache(2, 32);
    cache.retain(0, &mut bytes(17, 32));
    assert_eq!(cache.stats().retained_bytes, 0);
    drop(cache.lookup(&[0]));
    cache.retain(0, &mut ReadBuffer::empty());
    cache.retain(0, &mut bytes(17, 64));
    assert_eq!(cache.stats().retained_bytes, 0);
}

#[test]
fn preload_fills_free_capacity_and_is_served_as_hits() {
    let mut cache = cache(4, 64); // room for two 32-byte experts
    assert!(
        cache.preload(1, &mut bytes(11, 32)),
        "never routed to, still loaded"
    );
    assert!(cache.preload(3, &mut bytes(33, 32)));
    assert!(
        !cache.preload(0, &mut bytes(7, 32)),
        "full: preload never evicts"
    );
    assert!(!cache.preload(1, &mut bytes(11, 32)), "already there");
    assert!(!cache.preload(9, &mut bytes(9, 32)), "out of range");
    let st = cache.stats();
    assert_eq!((st.retained_bytes, st.admissions, st.evictions), (64, 0, 0));
    let hits = cache.lookup(&[1, 0, 3]).expect("cache on");
    assert_eq!(hits[0].as_ref().map(|b| b.as_slice()[0]), Some(11));
    assert!(hits[1].is_none());
    assert_eq!(hits[2].as_ref().map(|b| b.as_slice()[0]), Some(33));
    assert_eq!((cache.stats().hits, cache.stats().misses), (2, 1));
}

#[test]
fn retain_declines_out_of_range_expert_ids_without_panicking() {
    let mut cache = cache(2, 32);
    drop(cache.lookup(&[0, 1]));
    cache.retain(2, &mut bytes(17, 32));
    cache.retain(9, &mut bytes(93, 32));
    assert_eq!(cache.stats().retained_bytes, 0);
    assert_eq!(cache.stats().admissions, 0);
    // A valid id still gets in.
    cache.retain(0, &mut bytes(61, 32));
    assert_eq!(cache.stats().retained_bytes, 32);
    assert_eq!(cache.stats().admissions, 1);
}

#[test]
fn predicted_membership_query_preserves_history_and_actual_counters() {
    let mut cache = ExpertCache::with_policy(3, 32, 4, true);
    drop(cache.lookup(&[1]));
    cache.retain(1, &mut bytes(17, 32));
    let before = cache.stats();
    let kept = history(&cache);
    assert_eq!(cache.first_uncached(&[1, 2, 0]), Some(2));
    assert_eq!(cache.first_uncached(&[1]), None);
    assert_eq!(cache.first_uncached(&[9, 0]), Some(0));
    assert_eq!(cache.stats(), before);
    assert_eq!(history(&cache), kept);
    assert_eq!(
        ExpertCache::with_policy(3, 0, 4, true).first_uncached(&[0]),
        None
    );
}

#[test]
fn selective_prediction_respects_original_rank_and_preserves_history() {
    let mut cache = ExpertCache::with_policy(6, 96, 4, true);
    drop(cache.lookup(&[0, 1, 2]));
    for expert in 0..3 {
        cache.retain(expert, &mut bytes(17, 32));
    }
    let before = cache.stats();
    let kept = history(&cache);
    assert_eq!(cache.selective_uncached(&[3, 4, 5], 2), [Some(3), Some(4)]);
    assert_eq!(
        cache.selective_uncached(&[0, 3, 4, 5], 2),
        [Some(3), Some(4)]
    );
    assert_eq!(
        cache.selective_uncached(&[3, 0, 4, 5], 2),
        [Some(3), Some(4)]
    );
    assert_eq!(cache.selective_uncached(&[0, 1, 3, 4], 2), [Some(3), None]);
    assert_eq!(
        cache.selective_uncached(&[0, 1, 2, 3, 4], 2),
        [Some(3), None]
    );
    assert_eq!(cache.selective_uncached(&[9, 3, 4], 2), [Some(3), Some(4)]);
    assert_eq!(cache.selective_uncached(&[3, 3, 4], 2), [Some(3), Some(4)]);
    assert_eq!(cache.selective_uncached(&[3, 3, 3, 4], 2), [Some(3), None]);
    assert_eq!(cache.selective_uncached(&[0, 1, 2, 9], 2), [None, None]);
    assert_eq!(cache.selective_uncached(&[], 2), [None, None]);
    assert_eq!(cache.stats(), before);
    assert_eq!(history(&cache), kept);
    assert_eq!(
        ExpertCache::new(6, 0, None, false).selective_uncached(&[3, 4], 2),
        [None, None]
    );
}

#[test]
fn second_rank_ceiling_changes_only_the_second_prediction() {
    let mut cache = ExpertCache::with_policy(6, 96, 4, true);
    drop(cache.lookup(&[0, 1, 2]));
    for expert in 0..3 {
        cache.retain(expert, &mut bytes(17, 32));
    }
    assert_eq!(cache.selective_uncached(&[0, 3, 4], 1), [Some(3), None]);
    assert_eq!(cache.selective_uncached(&[0, 3, 4], 2), [Some(3), Some(4)]);
    assert_eq!(cache.selective_uncached(&[0, 1, 3, 4], 2), [Some(3), None]);
    assert_eq!(
        cache.selective_uncached(&[0, 1, 3, 4], 3),
        [Some(3), Some(4)]
    );
    assert_eq!(
        cache.selective_uncached(&[0, 1, 2, 3, 3, 4], 4),
        [Some(3), None]
    );
    assert_eq!(
        cache.selective_uncached(&[0, 1, 2, 3, 3, 4], 5),
        [Some(3), Some(4)]
    );
    for ceiling in 1..=5 {
        assert_eq!(
            cache.selective_uncached(&[0, 1, 2, 3], ceiling),
            [Some(3), None]
        );
    }
}

#[test]
fn third_prediction_requires_three_leading_uncached_distinct_experts() {
    let mut cache = ExpertCache::with_policy(8, 32, 4, true);
    drop(cache.lookup(&[0]));
    cache.retain(0, &mut bytes(17, 32));
    let before = cache.stats();
    let kept = history(&cache);
    assert_eq!(
        cache.predicted_uncached(&[1, 2, 3], 2, true),
        [Some(1), Some(2), Some(3)]
    );
    assert_eq!(
        cache.predicted_uncached(&[1, 2, 3], 1, true),
        [Some(1), Some(2), Some(3)]
    );
    assert_eq!(
        cache.predicted_uncached(&[1, 2, 3], 2, false),
        [Some(1), Some(2), None]
    );
    assert_eq!(
        cache.predicted_uncached(&[0, 1, 2, 3], 2, true),
        [Some(1), Some(2), None]
    );
    assert_eq!(
        cache.predicted_uncached(&[1, 1, 2, 3], 5, true),
        [Some(1), Some(2), None]
    );
    assert_eq!(
        cache.predicted_uncached(&[9, 1, 2, 3], 5, true),
        [Some(1), Some(2), None]
    );
    assert_eq!(
        cache.predicted_uncached(&[0, 1, 2, 3], 1, true),
        [Some(1), None, None]
    );
    assert_eq!(
        ExpertCache::new(8, 0, None, false).predicted_uncached(&[1, 2, 3], 2, true),
        [None, None, None]
    );
    assert_eq!(cache.stats(), before);
    assert_eq!(history(&cache), kept);
}

#[test]
fn lfu_retains_hot_expert_and_recycles_evicted_allocation() {
    let mut cache = cache(3, 64);
    drop(cache.lookup(&[0, 1]));
    cache.retain(0, &mut bytes(17, 32));
    cache.retain(1, &mut bytes(93, 32));
    drop(cache.lookup(&[0, 0, 2, 2]));
    let mut incoming = bytes(61, 32);
    cache.retain(2, &mut incoming);
    assert_eq!(incoming.as_slice(), [93; 32]);
    let hit = cache.lookup(&[0, 1, 2]).unwrap();
    assert_eq!(hit[0].as_ref().unwrap().as_slice(), [17; 32]);
    assert!(hit[1].is_none());
    assert_eq!(hit[2].as_ref().unwrap().as_slice(), [61; 32]);
    assert_eq!(cache.stats().retained_bytes, 64);
    assert_eq!(cache.stats().evictions, 1);
}

#[test]
fn short_frequency_history_adapts_within_a_sequence() {
    let mut adaptive = ExpertCache::with_decay(2, 32, 4);
    let mut long_history = ExpertCache::with_decay(2, 32, 4096);
    for cache in [&mut adaptive, &mut long_history] {
        drop(cache.lookup(&[0; 64]));
        cache.retain(0, &mut bytes(17, 32));
        drop(cache.lookup(&[1; 8]));
        cache.retain(1, &mut bytes(93, 32));
    }
    assert_eq!(adaptive.stats().frequency_decays, 18);
    assert_eq!(long_history.stats().frequency_decays, 0);
    let adapted = adaptive.lookup(&[0, 1]).unwrap();
    assert!(adapted[0].is_none());
    assert_eq!(adapted[1].as_ref().unwrap().as_slice(), [93; 32]);
    let old = long_history.lookup(&[0, 1]).unwrap();
    assert_eq!(old[0].as_ref().unwrap().as_slice(), [17; 32]);
    assert!(old[1].is_none());
    adaptive.reset_history();
    assert_eq!(adaptive.stats().frequency_decays, 18);
    assert_eq!(adaptive.stats().retained_bytes, 32);
}

#[test]
fn recent_ties_replace_stale_entries_but_preserve_later_cohort_hits() {
    for recent in [false, true] {
        let mut cache = ExpertCache::with_policy(3, 32, 32, recent);
        drop(cache.lookup(&[0]));
        cache.retain(0, &mut bytes(17, 32));
        drop(cache.lookup(&[1]));
        let mut incoming = bytes(93, 32);
        cache.retain(1, &mut incoming);
        assert_eq!(cache.stats().recent_tie_admissions, u64::from(recent));
        assert_eq!(cache.entries[0].expert, usize::from(recent));
        if recent {
            assert_eq!(incoming.as_slice(), [17; 32]);
            cache.reset_history();
            // Both frequencies are one; the entry that was hit came later in the same
            // cohort, so the expert that missed earlier cannot win.
            drop(cache.lookup(&[2, 1]));
            cache.retain(2, &mut bytes(61, 32));
            assert_eq!(cache.entries[0].expert, 1);
            assert_eq!(cache.stats().recent_tie_admissions, 1);
        }
    }
}

#[test]
fn recent_ties_cannot_evict_a_leased_buffer_or_exceed_capacity() {
    let mut cache = ExpertCache::with_policy(2, 32, 32, true);
    drop(cache.lookup(&[0]));
    cache.retain(0, &mut bytes(17, 32));
    let held = cache.lookup(&[0]).unwrap();
    drop(cache.lookup(&[1, 1]));
    let mut incoming = bytes(93, 32);
    cache.retain(1, &mut incoming);
    assert_eq!(cache.stats().evictions, 0);
    assert_eq!(held[0].as_ref().unwrap().as_slice(), [17; 32]);
    drop(held);
    cache.retain(1, &mut incoming);
    assert_eq!(cache.stats().recent_tie_admissions, 1);
    assert_eq!(cache.stats().retained_bytes, 32);
    assert_eq!(incoming.as_slice(), [17; 32]);
}

#[test]
fn outstanding_leases_prevent_eviction_and_keep_capacity_bounded() {
    let mut cache = cache(2, 32);
    drop(cache.lookup(&[0]));
    cache.retain(0, &mut bytes(17, 32));
    let held = cache.lookup(&[0]).unwrap();
    drop(cache.lookup(&[1, 1, 1]));
    cache.retain(1, &mut bytes(93, 32));
    assert_eq!(held[0].as_ref().unwrap().as_slice(), [17; 32]);
    assert_eq!(cache.stats().evictions, 0);
    assert_eq!(cache.stats().retained_bytes, 32);
    drop(held);
    cache.retain(1, &mut bytes(93, 32));
    assert_eq!(cache.stats().evictions, 1);
}

#[test]
fn independent_models_never_share_same_numbered_expert_bytes() {
    let mut first = cache(1, 32);
    let mut second = cache(1, 32);
    drop(first.lookup(&[0]));
    drop(second.lookup(&[0]));
    first.retain(0, &mut bytes(17, 32));
    second.retain(0, &mut bytes(93, 32));
    assert_eq!(
        first.lookup(&[0]).unwrap()[0].as_ref().unwrap().as_slice(),
        [17; 32]
    );
    assert_eq!(
        second.lookup(&[0]).unwrap()[0].as_ref().unwrap().as_slice(),
        [93; 32]
    );
}

#[test]
fn new_sequence_can_replace_stale_favorites_without_discarding_warm_weights() {
    let mut cache = cache(3, 64);
    drop(cache.lookup(&[0, 1]));
    cache.retain(0, &mut bytes(17, 32));
    cache.retain(1, &mut bytes(93, 32));
    for _ in 0..20 {
        drop(cache.lookup(&[0, 1]));
    }
    let hits_before = cache.stats().hits;
    cache.reset_history();
    assert_eq!(cache.stats().retained_bytes, 64);
    assert_eq!(cache.stats().hits, hits_before);
    let warm = cache.lookup(&[0]).unwrap();
    assert_eq!(warm[0].as_ref().unwrap().as_slice(), [17; 32]);
    drop(warm);
    drop(cache.lookup(&[2]));
    cache.retain(2, &mut bytes(61, 32));
    let hit = cache.lookup(&[0, 1, 2]).unwrap();
    assert!(hit[0].is_some() && hit[1].is_none() && hit[2].is_some());
    assert_eq!(cache.stats().history_resets, 1);
}

#[test]
fn an_evicted_buffer_is_what_the_caller_gets_back() {
    // The reader reuses the buffer it is handed, so it must be the evicted bytes and
    // not the ones it brought.
    let mut cache = cache(2, 16);
    drop(cache.lookup(&[0]));
    let mut a = bytes(1, 16);
    cache.retain(0, &mut a);
    assert_eq!(a.as_slice(), [0u8; 0]);
    drop(cache.lookup(&[1, 1]));
    let mut b = bytes(2, 16);
    cache.retain(1, &mut b);
    assert_eq!(b.as_slice(), [1; 16]);
    assert_eq!(cache.stats().hit_bytes, 0);
    drop(cache.lookup(&[1]));
    assert_eq!(cache.stats().hit_bytes, 16);
}

#[test]
fn cache_stats_add_up_field_by_field() {
    let mut a = ExpertCacheStats::sized(100);
    let mut b = ExpertCacheStats::sized(20);
    a.hits = 3;
    b.hits = 4;
    b.retained_bytes = 7;
    b.evictions = 2;
    a.add(b);
    assert_eq!(a.capacity_bytes, 120);
    assert_eq!((a.hits, a.retained_bytes, a.evictions), (7, 7, 2));
}

#[test]
fn configured_bytes_are_whole_mebibytes() {
    assert_eq!(ExpertCache::configured_bytes(None), 0);
    assert_eq!(ExpertCache::configured_bytes(Some("3")), 3 * 1024 * 1024);
    assert_eq!(ExpertCache::configured_bytes(Some("lots")), 0);
}

#[test]
fn only_entries_of_one_handle_may_leave() {
    assert_eq!(unleased(&[1, 2, 0, 1]), vec![true, false, false, true]);
    let mut c = cache(3, 64);
    drop(c.lookup(&[0, 1, 1, 2, 2, 2]));
    c.retain(0, &mut bytes(17, 32));
    c.retain(1, &mut bytes(93, 32));
    let mut incoming = bytes(61, 32);
    // the coldest entry is leased, the next one is not
    assert!(!c.retain_counted(2, &mut incoming, &[2, 1]));
    assert_eq!(incoming.as_slice(), [93; 32]);
    let kept: Vec<usize> = c.entries.iter().map(|e| e.expert).collect();
    assert_eq!(kept, vec![0, 2]);
    assert_eq!((c.stats().evictions, c.stats().retained_bytes), (1, 64));
}

#[test]
fn an_entry_that_is_still_held_goes_back_in_its_place() {
    let mut c = cache(2, 32);
    drop(c.lookup(&[0]));
    c.retain(0, &mut bytes(17, 32));
    let held = c.lookup(&[0]).unwrap();
    drop(c.lookup(&[1, 1, 1]));
    let before = c.stats();
    let mut incoming = bytes(93, 32);
    // the count is out of date: the handle cannot be taken apart
    assert!(c.retain_counted(1, &mut incoming, &[1]));
    assert_eq!(incoming.as_slice(), [93; 32]);
    assert_eq!(c.stats(), before);
    assert_eq!((c.entries.len(), c.entries[0].expert), (1, 0));
    assert_eq!(c.entries[0].bytes.as_slice(), [17; 32]);
    drop(held);
    assert!(!c.retain_counted(1, &mut incoming, &[1]));
    assert_eq!(incoming.as_slice(), [17; 32]);
    assert_eq!(c.entries[0].expert, 1);
}

#[test]
fn a_new_cache_has_counted_nothing() {
    let none = ExpertCacheStats {
        capacity_bytes: 64,
        retained_bytes: 0,
        hits: 0,
        hit_bytes: 0,
        misses: 0,
        admissions: 0,
        evictions: 0,
        history_resets: 0,
        frequency_decays: 0,
        recent_tie_admissions: 0,
    };
    assert_eq!(cache(3, 64).stats(), none);
    assert_eq!(ExpertCache::with_decay(3, 64, 4).stats(), none);
    assert_eq!(ExpertCache::with_policy(3, 64, 4, true).stats(), none);
}

#[test]
fn an_offer_is_settled_by_what_the_handle_gave_up() {
    let fresh = || {
        let mut c = cache(2, 32);
        drop(c.lookup(&[0]));
        c.retain(0, &mut bytes(17, 32));
        drop(c.lookup(&[1, 1, 1]));
        c
    };
    let mut c = fresh();
    let before = c.stats();
    let mut incoming = bytes(93, 32);
    let OfferStep::Reclaim { at, recent_tie, handle } = c.offer(1, &mut incoming, &[1]) else {
        panic!("the colder entry has to leave");
    };
    assert_eq!((at, recent_tie, handle.as_slice()), (0, false, &[17u8; 32][..]));
    c.settle_offer(1, &mut incoming, &[1], at, recent_tie, Err(handle));
    assert_eq!(c.stats(), before);
    assert_eq!(c.entries[0].bytes.as_slice(), [17; 32]);
    assert_eq!(incoming.as_slice(), [93; 32]);

    let mut c = fresh();
    let OfferStep::Reclaim { at, recent_tie, handle } = c.offer(1, &mut incoming, &[1]) else {
        panic!("the colder entry has to leave");
    };
    let gone = ReadBuffer::from_bytes(handle.as_slice().to_vec());
    c.settle_offer(1, &mut incoming, &[1], at, recent_tie, Ok(gone));
    assert_eq!((c.entries[0].expert, c.stats().evictions), (1, 1));
    assert_eq!(incoming.as_slice(), [17; 32]);

    let mut c = fresh();
    let mut incoming = bytes(93, 32);
    assert!(matches!(c.offer(1, &mut incoming, &[2]), OfferStep::Settled));
    assert_eq!(incoming.as_slice(), [93; 32]);
}
