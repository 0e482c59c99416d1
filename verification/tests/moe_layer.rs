//! Paths through a mixture-of-experts layer, its block plans and its reads.
use cascadia_engine_sparse_moe::inkling::cpu_overlap::{measured_layer, probe_ids};
use cascadia_engine_sparse_moe::inkling::expert_cache::{ExpertCacheStats, ReadBuffer};
use cascadia_engine_sparse_moe::inkling::expert_counts::Counts;
use cascadia_engine_sparse_moe::inkling::gate::GateOut;
use cascadia_engine_sparse_moe::inkling::model::{own_prediction, sum_stats, tally, token_steps};
use cascadia_engine_sparse_moe::inkling::moe::{
    check_enforced, decode_reads, par_experts, pipeline_reads, prefill_reads, prewarm_total,
    reuse_read_buffers, row_gemm, seq_reads, settle_high_ids, skip_bulk_prefetch, slot_begin,
    slot_plain, slot_predicted, slot_read, DenseMlp, DensePath, MoeLayer, MoeWeights, Path, ReadSwitches, SlotAction,
    SlotFacts,
};
use cascadia_engine_sparse_moe::inkling::moe_block::{
    block_prefetches, plan_block, scatter_visits, shared_at_once, visit_cohorts, visit_kernel, visit_source,
    VisitSource,
};

const ONE: u32 = 0x3f80_0000;

fn layer(cache: Option<&str>) -> MoeLayer {
    let w = MoeWeights {
        router_w: 6 * 8,
        router_bias: 4,
        experts: 4,
        shared: 2,
    };
    let reads = ReadSwitches {
        seq: false,
        reuse: true,
        pipeline: true,
        skip_prefetch: false,
        par: true,
    };
    MoeLayer::new(8, 16, 2, ONE, w, reads, cache, None, false)
}

fn gate(idx: [usize; 2]) -> GateOut {
    GateOut {
        idx: idx.to_vec(),
        w: vec![10, 11],
        gammas: vec![20, 21],
    }
}

#[test]
fn a_call_takes_the_nearest_backend() {
    let mut l = layer(None);
    assert!(l.has_local_experts());
    assert_eq!(l.forward_path(false), Path::Host);
    assert_eq!(l.forward_batch_path(false), Path::Host);
    assert_eq!((l.remote(), l.ov()), (None, None));
    l.attach_ov(3);
    assert_eq!(l.ov(), Some(3));
    assert_eq!(l.forward_path(false), Path::PerExpert);
    assert_eq!(l.warm_keys().map(|k| k[5]), Some((3, 5)));
    assert_eq!(l.fused_matches(), None);
    l.attach_ov_moe(3, 4);
    assert_eq!(l.fused_matches(), Some(true));
    assert_eq!(l.warm_keys(), None);
    assert!(!l.host_can_check());
    assert_eq!(l.forward_path(false), Path::Fused);
    // A declined fused call goes on to the next path.
    assert_eq!(l.forward_path(true), Path::PerExpert);
    assert_eq!(l.forward_batch_path(true), Path::PerExpert);
    l.attach_remote(3, 8, 4, 2);
    assert_eq!(l.forward_path(false), Path::Remote);
    assert!(!l.prediction_reads_enabled(true));
}

#[test]
fn ids_of_a_call_name_shared_experts_behind_the_routed_ones() {
    let l = layer(None);
    let g = gate([3, 1]);
    assert_eq!(l.device_ids(&g), vec![3, 1, 4, 5]);
    assert_eq!(l.high_ids(), vec![2, 3, 4, 5]);
    assert_eq!(l.token_experts(&g), vec![(3, 10), (1, 11), (4, 20), (5, 21)]);
    let (ids, w) = l.fused_call(&[g, gate([0, 2])]);
    assert_eq!(ids, vec![3, 1, 4, 5, 0, 2, 4, 5]);
    assert_eq!(w, vec![10, 11, 20, 21, 10, 11, 20, 21]);
    let rows = l.remote_rows(&[gate([3, 1]), gate([0, 2])]);
    assert_eq!(rows[0], vec![(3, 10), (1, 11), (4, 20), (5, 21)]);
    assert_eq!(rows[1], vec![(0, 10), (2, 11), (4, 20), (5, 21)]);
    assert_eq!(l.row_blocks(0), vec![]);
    assert_eq!(l.row_blocks(3).last().map(|b| b.1), Some(3));
}

#[test]
fn predictions_and_prewarming_follow_the_cache() {
    let mut off = layer(None);
    assert_eq!(off.predicted_reads(true, &[1, 2], true, 8, true), None);
    assert_eq!(off.prewarm_cohorts(), vec![]);
    let mut b = ReadBuffer {
        data: vec![7; 100],
        allocated: 128,
    };
    assert_eq!(off.prewarm_one(1, &mut b), 0);
    assert_eq!(b.data.len(), 100);

    let mut on = layer(Some("1"));
    assert!(on.prediction_reads_enabled(true));
    assert!(!on.prediction_reads_enabled(false));
    assert_eq!(on.prewarm_cohorts().last().map(|c| c.1), Some(4));
    assert_eq!(on.prewarm_one(1, &mut b), 100);
    assert_eq!(b.data.len(), 0);
    // A second copy of the same expert is not kept.
    let mut again = ReadBuffer {
        data: vec![8; 100],
        allocated: 128,
    };
    assert_eq!(on.prewarm_one(1, &mut again), 0);
    assert_eq!(prewarm_total(&[100, 0, 7]), (2, 107));
    assert_eq!(
        on.predicted_reads(true, &[1, 2, 0], true, 8, true),
        Some([Some(2), Some(0), None])
    );
    assert_eq!(
        on.predicted_reads(true, &[1, 2, 0], false, 8, true),
        Some([Some(2), None, None])
    );
    let hits = on.block_lookup(&[1, 2], true);
    assert_eq!(hits[0].as_ref().map(|h| h.data[0]), Some(7));
    assert!(hits[1].is_none());
    drop(hits);
    assert!(on.block_lookup(&[1], false)[0].is_none());
    // Fresh buffers are offered in their order; the others stay with their slots.
    let mut buffers = vec![
        ReadBuffer {
            data: vec![1; 10],
            allocated: 16,
        },
        ReadBuffer {
            data: vec![2; 10],
            allocated: 16,
        },
    ];
    on.retain_in_order(&[2, 0], &[true, false], &mut buffers);
    assert_eq!(buffers[1].data, vec![2; 10]);
    assert!(on.block_lookup(&[2], true)[0].is_some());
    assert!(on.block_lookup(&[0], true)[0].is_none());
    on.reset_expert_cache_history(true);
    assert_eq!(on.expert_cache.clock, 0);
    assert_eq!(on.expert_cache_stats().history_resets, 1);
}

#[test]
fn read_settings_switch_the_decode_step() {
    assert!(seq_reads(Some("1")) && !seq_reads(None));
    assert!(reuse_read_buffers(Some("1")) && pipeline_reads(Some("1")));
    assert!(skip_bulk_prefetch(Some("1")) && !skip_bulk_prefetch(Some("0")));
    assert!(par_experts(None) && !par_experts(Some("1")));
    assert!(row_gemm(None) && !row_gemm(Some("0")));
    assert!(prefill_reads(Some("1"), true, false));
    assert!(!prefill_reads(Some("1"), true, true));
    assert!(!prefill_reads(Some("1"), false, false));
    let s = ReadSwitches {
        seq: false,
        reuse: true,
        pipeline: true,
        skip_prefetch: true,
        par: true,
    };
    let d = decode_reads(s, true);
    assert!(!d.prefetch && d.bulk && d.reused && d.pipelined);
    let d = decode_reads(ReadSwitches { seq: true, ..s }, true);
    assert!(d.prefetch && !d.bulk && !d.reused && !d.pipelined);
    let f = SlotFacts {
        mapped: true,
        cached: false,
        predicted: true,
        caching: false,
        resident: true,
    };
    assert_eq!(slot_predicted(f, true), SlotAction::FromBuffer);
    assert_eq!(slot_predicted(f, false), SlotAction::FromStorage);
    assert_eq!(
        slot_predicted(SlotFacts { resident: false, ..f }, false),
        SlotAction::Read
    );
    assert_eq!(slot_read(true), SlotAction::FromBuffer);
    assert_eq!(slot_read(false), SlotAction::FromStorage);
}

#[test]
fn a_dense_layer_picks_its_path_and_keeps_a_checked_backend() {
    let mut d = DenseMlp::new(16, ONE);
    assert!(!d.single_row_as_rows());
    assert_eq!(d.rows_path(1, true, false, false), DensePath::RowByRow);
    assert_eq!(d.rows_path(4, true, false, false), DensePath::AtOnce);
    assert_eq!(d.rows_path(4, false, false, false), DensePath::RowByRow);
    d.attach_ov_dense(2);
    assert_eq!((d.ov(), d.ov_dense()), (None, Some(2)));
    assert_eq!(d.rows_path(4, true, false, false), DensePath::Device);
    assert_eq!(d.rows_path(4, true, false, true), DensePath::AtOnce);
    assert_eq!(d.dense_moe_call(2), None);
    d.attach_ov_dense_moe(2, 3);
    assert!(d.single_row_as_rows());
    assert_eq!(d.rows_path(4, true, false, false), DensePath::Sliced);
    assert_eq!(
        d.dense_moe_call(2),
        Some((vec![0, 1, 2, 0, 1, 2], vec![ONE; 6]))
    );
    d.settle_dense_check(true);
    assert_eq!(d.ov_dense_moe, Some((2, 3)));
    d.settle_dense_check(false);
    assert_eq!(d.ov_dense_moe, None);
    let v = settle_high_ids(false, true);
    assert!(!v.serves && v.fails_layer);
    let v = settle_high_ids(false, false);
    assert!(v.serves && !v.fails_layer);
}

#[test]
fn a_block_visits_each_expert_once() {
    let gates = [gate([3, 1]), gate([1, 0])];
    let p = plan_block(&gates, 4, 2, 2);
    assert_eq!(block_prefetches(&p, false), p.unique);
    assert_eq!(block_prefetches(&p, true), Vec::<usize>::new());
    assert_eq!(visit_cohorts(3, false), vec![(0, 3)]);
    assert_eq!(visit_cohorts(0, true), vec![]);
    let c = visit_cohorts(100, true);
    assert_eq!(c[0].0, 0);
    assert_eq!(c.last().map(|r| r.1), Some(100));
    assert!(shared_at_once(true, 2) && !shared_at_once(true, 1));
    assert_eq!(visit_source(true, true, true), VisitSource::Cached);
    assert_eq!(visit_source(true, false, true), VisitSource::Read);
    assert_eq!(visit_source(true, false, false), VisitSource::Storage);
    assert_eq!(visit_source(false, true, true), VisitSource::Storage);
    let k = visit_kernel(VisitSource::Read, true, true, 2, true);
    assert!(k.buffered && k.at_once && k.retain);
    let k = visit_kernel(VisitSource::Read, false, true, 2, true);
    assert!(!k.buffered && !k.at_once && !k.retain);
    let k = visit_kernel(VisitSource::Cached, false, true, 1, true);
    assert!(k.buffered && !k.at_once && !k.retain);
}

#[test]
fn predictions_of_a_token_read_each_layer_once() {
    let s = token_steps(&[false, true, true], true, false);
    assert_eq!(s.len(), 3);
    assert!(s[0].predict_next && s[0].read_next && !s[0].observe_next);
    assert!(!s[2].predict_next);
    assert!(s[1].skip_own && s[2].skip_own);
    let plain = token_steps(&[true, true], false, false);
    assert!(plain.iter().all(|x| !x.predict_next && !x.skip_own));
    let p = own_prediction(true, false, false, true);
    assert!(p.route && p.read && !p.observe);
    let p = own_prediction(true, true, true, true);
    assert!(p.route && p.observe && !p.read);
    assert!(!own_prediction(false, true, false, true).route);
}

#[test]
fn totals_add_up() {
    let one = ExpertCacheStats {
        capacity_bytes: 1,
        retained_bytes: 2,
        hits: 3,
        hit_bytes: 4,
        misses: 5,
        admissions: 6,
        evictions: 7,
        history_resets: 8,
        frequency_decays: 9,
        recent_tie_admissions: 10,
    };
    let t = sum_stats(&[one, one, one]);
    assert_eq!(t.hits, 9);
    assert_eq!(t.recent_tie_admissions, 30);
    assert_eq!(sum_stats(&[]).misses, 0);
    assert_eq!(tally(&[Some(true), None, Some(false), Some(true)]), (2, 1));
}

#[test]
fn counts_are_reported_every_1024_rows() {
    let mut c = Counts::new(4);
    for row in 1..=1024u64 {
        let r = c.observe_and_report(&gate([0, (row % 2) as usize + 1]));
        assert_eq!(r.is_some(), row == 1024);
        if let Some(s) = r {
            // Half of all selections go to the hottest of three experts.
            assert_eq!(s, [1_000_000, 1_000_000, 1_000_000, 500_000, 3]);
        }
    }
}

#[test]
fn a_probe_measures_the_first_device_layer() {
    assert_eq!(
        measured_layer(&[false, true, true], &[true, false, true]),
        Some(2)
    );
    assert_eq!(measured_layer(&[true], &[false]), None);
    // Row 1 starts 17 ids on, its slots 43 apart; shared experts keep their own ids.
    assert_eq!(probe_ids(2, 2, 1, 64), vec![0, 43, 64, 17, 60, 64]);
}

#[test]
fn a_failed_check_is_enforced_only_by_name() {
    assert!(check_enforced(Some(" enforce\n")));
    assert!(!check_enforced(Some("Enforce")));
    assert!(!check_enforced(Some("1")));
    assert!(!check_enforced(None));
}

#[test]
fn a_slot_ends_with_its_own_expert() {
    let s = ReadSwitches {
        seq: false,
        reuse: false,
        pipeline: false,
        skip_prefetch: false,
        par: true,
    };
    let bulk = decode_reads(s, true);
    assert_eq!(slot_plain(bulk, true, false), SlotAction::Read);
    assert_eq!(slot_plain(bulk, true, true), SlotAction::FromStorage);
    assert_eq!(slot_plain(bulk, false, false), SlotAction::FromStorage);
    let lazy = decode_reads(ReadSwitches { seq: true, ..s }, true);
    assert_eq!(slot_plain(lazy, true, false), SlotAction::FromStorage);
    for bits in 0..128u32 {
        let on = |i: u32| bits >> i & 1 == 1;
        let f = SlotFacts {
            mapped: on(0),
            cached: on(1),
            predicted: on(2),
            caching: on(3),
            resident: on(4),
        };
        let mut a = slot_begin(f);
        if a == SlotAction::TakePredicted {
            a = slot_predicted(f, on(5));
        }
        if a == SlotAction::Read {
            a = slot_read(on(6));
        }
        let want = if !f.mapped {
            SlotAction::FromStorage
        } else if f.cached {
            SlotAction::FromCache
        } else if (f.predicted && on(5)) || ((f.caching || !f.resident) && on(6)) {
            SlotAction::FromBuffer
        } else {
            SlotAction::FromStorage
        };
        assert_eq!(a, want);
    }
}

#[test]
fn rows_of_a_block_are_those_of_the_row_alone() {
    let gates = [gate([2, 0]), gate([0, 2]), gate([1, 2])];
    let out = |e: usize, row: usize| vec![(100 * e + row) as u32, 7];
    let run = |gates: &[GateOut], first: usize| {
        let p = plan_block(gates, 3, 1, 2);
        let visits: Vec<(usize, Vec<u32>)> = p
            .unique
            .iter()
            .map(|&e| (e, p.occ[e].iter().flat_map(|&s| out(e, first + s / 2)).collect()))
            .collect();
        scatter_visits(&visits, &p.occ, 2 * gates.len(), 2)
    };
    let all = run(&gates, 0);
    for r in 0..3 {
        assert_eq!(run(&gates[r..r + 1], r), all[4 * r..4 * r + 4]);
    }
    assert_eq!(all[4..8], [1, 7, 201, 7]);
}

#[test]
fn a_slot_that_no_visit_serves_is_zero() {
    let occ = vec![vec![0], vec![1], vec![2]];
    let ey = scatter_visits(&[(2, vec![5, 6]), (0, vec![1, 2])], &occ, 3, 2);
    assert_eq!(ey, vec![1, 2, 0, 0, 5, 6]);
}
