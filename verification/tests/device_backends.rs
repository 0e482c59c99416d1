//! Device backends, expert workers, pinning and the state of sequences.
use cascadia_engine_sparse_moe::inkling::attn::{
    row_parallel_attention, AttentionLayer, AttnDims, Projections, TableLens,
};
use cascadia_engine_sparse_moe::inkling::conv::{ConvPool, ShortConv};
use cascadia_engine_sparse_moe::inkling::cpu_overlap::CpuProbe;
use cascadia_engine_sparse_moe::inkling::ep::EpClient;
use cascadia_engine_sparse_moe::inkling::ep_bank::{ExpertBank, HostFacts, HostRead};
use cascadia_engine_sparse_moe::inkling::ep_worker::{ExpertWorkerEngine, ReplyForm};
use cascadia_engine_sparse_moe::inkling::expert_cache::{ExpertCacheStats, ReadBuffer};
use cascadia_engine_sparse_moe::inkling::loader::{
    four, layer_dir_name, shell_file_name, ExpertSet, PinState,
};
use cascadia_engine_sparse_moe::inkling::model::{Layer, LayerMlp, LayerTiming, Model};
use cascadia_engine_sparse_moe::inkling::moe::{DenseMlp, MoeLayer, MoeWeights, ReadSwitches};
use cascadia_engine_sparse_moe::inkling::ov_attn::{AttnOutcome, OvAttn};
use cascadia_engine_sparse_moe::inkling::ov_expert::{
    budget_setting, count_setting, expert_folder, on_accelerator, xml, CompileFailure, OvExperts,
    DENSE,
};
use cascadia_engine_sparse_moe::inkling::ov_head::OvHeadStats;
use cascadia_engine_sparse_moe::inkling::ov_moe::{
    availability, decode_dir_name, decode_layer_list, decode_rows, offload_ratio, ov_perf,
    plugin_plan, row_factor, scale_bits, small_buckets, weight_rescale, Availability,
    ForwardOutcome, OvMoe,
};
use cascadia_engine_sparse_moe::inkling::ring::Ring;
use cascadia_engine_sparse_moe::inkling::stage::{ExpertsMode, InklingRunner, StagePlan};

fn bytes_of(v: &[f32]) -> Vec<u8> {
    v.iter().flat_map(|x| x.to_le_bytes()).collect()
}

fn fused_backend() -> OvMoe {
    OvMoe::new(2, 2, 5, false, false, decode_layer_list(None), 1, small_buckets(Some("2,4")))
}

#[test]
fn a_call_is_padded_with_its_last_row_and_weighs_the_copies_zero() {
    let o = fused_backend();
    let c = o.padded_call(3, false, &[1, 2, 3, 4, 5, 6], &[0, 1, 2, 3, 4, 0], &[7; 6], 3);
    assert_eq!(c.prow, 4);
    assert_eq!(c.xs, vec![1, 2, 3, 4, 5, 6, 5, 6]);
    assert_eq!(c.ids, vec![0, 1, 2, 3, 4, 0, 4, 0]);
    assert_eq!(c.weights, vec![7, 7, 7, 7, 7, 7, 0, 0]);
}

#[test]
fn a_fused_call_settles_by_its_first_fault() {
    let mut o = fused_backend();
    let good = bytes_of(&[1.0, 2.0, 3.0, 4.0]);
    match o.forward_settled(3, 1, 2, true, "", Some(&good), 10) {
        ForwardOutcome::Done(v) => {
            assert_eq!(v, vec![1.0f32.to_bits(), 2.0f32.to_bits()])
        }
        _ => panic!("refused"),
    }
    assert_eq!((o.stats.calls, o.stats.rows, o.stats.call_ns), (1, 1, 10));
    assert!(matches!(
        o.forward_settled(3, 1, 2, false, "", Some(&good), 10),
        ForwardOutcome::CallFailed { report: true }
    ));
    assert!(matches!(
        o.forward_settled(3, 1, 2, true, "", None, 10),
        ForwardOutcome::CallFailed { report: false }
    ));
    // Only the call's own rows must be finite.
    let tail = bytes_of(&[1.0, 2.0, f32::NAN, 4.0]);
    assert!(matches!(
        o.forward_settled(3, 1, 2, true, "", Some(&tail), 10),
        ForwardOutcome::Done(_)
    ));
    let head = bytes_of(&[f32::INFINITY, 2.0, 3.0, 4.0]);
    assert!(matches!(
        o.forward_settled(4, 1, 2, true, "", Some(&head), 10),
        ForwardOutcome::NotFinite { report: true }
    ));
    assert!(matches!(
        o.forward_settled(5, 1, 2, true, "", Some(&good[..8]), 10),
        ForwardOutcome::WrongLength { report: true }
    ));
    assert_eq!(o.failed_layers(), vec![5]);
    assert_eq!((o.stats.fallbacks, o.stats.nonfinite), (4, 1));

    let mut strict = fused_backend().requiring_fusion();
    assert!(matches!(
        strict.forward_settled(1, 1, 2, true, "n\tMOECompressed\tother\t1", Some(&good), 1),
        ForwardOutcome::NotFused { report: true }
    ));
    let shown = "n\tMOECompressed\tocl::moe::moe_3gemm_x\t1\n";
    assert!(matches!(
        strict.forward_settled(2, 1, 2, true, shown, Some(&good), 1),
        ForwardOutcome::Done(_)
    ));
    // Once seen, the kernel need not show again.
    assert!(matches!(
        strict.forward_settled(2, 1, 2, true, "", Some(&good), 1),
        ForwardOutcome::Done(_)
    ));
    assert_eq!(strict.fusion_profiles(), &vec![(2, shown.to_string())]);
}

#[test]
fn the_fused_backend_reads_its_settings_and_warms_every_expert() {
    assert!(ov_perf(Some(" 1 ")) && !ov_perf(Some("2")) && !ov_perf(None));
    assert!(weight_rescale(None) && !weight_rescale(Some("0")));
    assert_eq!(decode_dir_name(Some(" alt ")).as_deref(), Some("alt"));
    assert_eq!(decode_dir_name(Some("a/b")), None);
    assert_eq!(decode_dir_name(Some("..x")), None);
    assert_eq!(decode_dir_name(Some("  ")), None);
    assert_eq!(offload_ratio(Some("0.5")).as_deref(), Some("0.5"));
    assert_eq!(offload_ratio(Some("0")), None);
    assert_eq!((decode_rows(None), decode_rows(Some("0")), decode_rows(Some("99"))), (1, 1, 32));
    assert_eq!(f32::from_bits(scale_bits(3)), 8.0);
    assert_eq!(f32::from_bits(row_factor(2.0f32.to_bits(), 3)), 16.0);
    assert_eq!(f32::from_bits(row_factor(f32::INFINITY.to_bits(), 3)), f32::INFINITY);
    let p = plugin_plan(true, false, true);
    assert!(p.perf && p.materialize && p.cache_ignored && !p.cache);
    assert_eq!(availability(false, true), Availability::Off);
    assert_eq!(availability(true, false), Availability::MissingFolder);
    assert_eq!(availability(true, true), Availability::On);
    let mut o = fused_backend();
    assert_eq!(o.k_total(), 2);
    // Five experts at two per row: the last row is filled up with the first expert.
    assert_eq!(o.touch_ids(), vec![0, 1, 2, 3, 4, 0]);
    assert_eq!(o.warm_ids(2), vec![3, 4, 3, 4]);
    assert_eq!(o.warm_shapes(false), vec![2, 4]);
    assert_eq!(o.warm_shapes(true), vec![1, 2, 4]);
    assert_eq!(o.layer_out_scale(2, Some("{\"up_scale_exponent\": 4}")), 4);
    // The first reading stays.
    assert_eq!(o.layer_out_scale(2, None), 4);
    assert_eq!(o.layer_out_scale(3, None), 0);
    assert!(o.fail_layer(1));
    assert!(!o.mark_k_mismatch(1));
    assert!(o.note_k_mismatch(2));
    assert_eq!(o.stats.fallbacks, 1);
    assert_eq!(o.warm_begin().calls, 0);
}

#[test]
fn the_attention_backend_pads_and_settles() {
    let mut a = OvAttn::new(small_buckets(Some("4")));
    let s = a.shape(6, 3);
    assert_eq!((s.padded, s.width), (4, 2));
    let x = vec![1, 2, 3, 4, 5, 6];
    assert_eq!(a.padded_input(&x, 3, s), vec![1, 2, 3, 4, 5, 6, 0, 0]);
    let outs = vec![Some(vec![1, 2, 3, 4]), Some(vec![9; 8])];
    match a.call_settled(1, 3, 4, true, &outs, 5) {
        AttnOutcome::Done(v) => assert_eq!(v, vec![vec![1, 2, 3], vec![9; 6]]),
        _ => panic!("refused"),
    }
    assert!(matches!(
        a.call_settled(1, 3, 4, true, &vec![None, Some(vec![1])], 5),
        AttnOutcome::Failed { report: true }
    ));
    assert!(matches!(
        a.call_settled(1, 3, 4, true, &vec![Some(vec![1]), None], 5),
        AttnOutcome::Misshaped { report: true }
    ));
    assert_eq!((a.stats().calls, a.stats().fallbacks), (1, 2));
    assert_eq!(a.failed_layers(), vec![1]);
}

#[test]
fn per_expert_models_are_named_and_given_up() {
    assert_eq!(count_setting(Some("7"), 3), 7);
    assert_eq!(count_setting(Some("x"), 3), 3);
    assert_eq!(budget_setting(None, 11), 11);
    assert!(on_accelerator("GPU.0") && !on_accelerator("cpu"));
    assert_eq!(expert_folder(7, 256), "expert_007");
    assert_eq!(expert_folder(257, 256), "expert_shared1");
    assert_eq!(xml(3, DENSE, 256), "layer_03/dense/openvino_model.xml");
    assert_eq!(xml(12, 7, 256), "layer_12/expert_007/openvino_model.xml");
    let mut o = OvExperts::from_dir(8, 4, 1);
    assert_eq!(
        o.compile_failed(1, 2, false, "no such file"),
        CompileFailure::GivenUp { first: true }
    );
    assert_eq!(
        o.compile_failed(1, 2, false, "no such file"),
        CompileFailure::GivenUp { first: false }
    );
    assert_eq!(
        o.compile_failed(1, 3, false, "resource unavailable: memory"),
        CompileFailure::Off { first: true }
    );
    assert_eq!(
        o.compile_failed(1, 4, true, ""),
        CompileFailure::Off { first: false }
    );
    o.fell_back();
    assert_eq!(o.stats().fallbacks, 1);
    assert_eq!(o.failed_keys(), vec![(1, 2)]);
}

#[test]
fn a_worker_answers_in_the_form_that_the_coordinator_asked_for() {
    let w = ExpertWorkerEngine::new();
    assert!(w.fused_weights_fit(&[3, 2, 1], 3, 2));
    assert!(!w.fused_weights_fit(&[3, 1, 2], 3, 2));
    assert_eq!(w.reply_form(2, Some(-3), true), ReplyForm::Lossless { slots: 2, exponent: -3 });
    assert_eq!(w.reply_form(2, Some(-3), false), ReplyForm::Full { slots: 2 });
    assert_eq!(w.reply_form(2, None, true), ReplyForm::Full { slots: 2 });
    let mut b = ExpertBank {
        layers: vec![vec![0, 2]],
        moe: vec![true],
        hidden: 4,
        inter: 8,
        n_routed: 3,
        n_shared: 1,
        index: 0,
        count: 1,
        fused: false,
        require_gpu: false,
        cpu_calls: 0,
        cpu_f16_reference: true,
        wire_f16_replies: 0,
        wire_f32_replies: 0,
        wire_tensor_bytes: 0,
        wire_f32_equivalent_bytes: 0,
    };
    assert_eq!((b.index(), b.inter()), (0, 8));
    assert_eq!(b.owned_ids(0), vec![0, 2]);
    assert_eq!(b.owned_ids(9), Vec::<usize>::new());
    b.count_reply(true, 10);
    b.count_reply(false, 10);
    assert_eq!((b.wire_tensor_bytes, b.wire_f32_equivalent_bytes), (60, 80));
    let f = HostFacts {
        streamed: false,
        mapped: true,
        seq_reads: false,
        mostly_resident: false,
        read_ok: true,
    };
    assert_eq!((b.hidden(), b.n_routed(), b.n_shared()), (b.hidden, b.n_routed, b.n_shared));
    assert_eq!(b.host_read(f), HostRead::Buffered);
    assert_eq!(b.host_read(HostFacts { read_ok: false, ..f }), HostRead::Direct);
    assert_eq!(
        b.host_read(HostFacts { streamed: true, ..f }),
        HostRead::Streamed { reference: true }
    );
    let c = EpClient::new(2, 4, 3, 1, false).with_fused(true);
    assert!(!c.placed());
    assert!(c.with_placement(4, 3, 1).map(|c| c.placed()).unwrap_or(false));
}

#[test]
fn pinning_stops_at_the_first_refused_lock() {
    let mut p = PinState {
        enabled: true,
        failed: false,
    };
    assert!(p.pin_experts(true) && !p.pin_experts(false));
    assert_eq!(p.maybe_pin(true, 10), (10, false));
    assert_eq!(p.maybe_pin(false, 10), (0, true));
    assert_eq!(p.maybe_pin(false, 10), (0, false));
    assert!(!p.pin_experts(true));
    assert_eq!(four(), 4);
    assert_eq!(layer_dir_name(7), "layer_07");
    assert_eq!(shell_file_name(12), "shells/layer_12.safetensors");
    let b = ReadBuffer {
        data: vec![1],
        allocated: 64,
    };
    assert_eq!(b.allocated_bytes(), 64);
}

fn attention() -> AttentionLayer {
    let conv = || ShortConv::new(vec![0; 2 * 3], 2, 3);
    AttentionLayer::from_parts(AttnDims::global(2, 4, 1, 2, 8, 16, 0), conv(), conv())
}

fn step(l: &mut Layer, v: u32) -> Vec<Option<Vec<u32>>> {
    l.attn.consume(&[v, v], &[v, v]);
    l.attn.attend(&[v, v], &[v, v]);
    l.attention_done(&[v, v + 1]);
    l.mlp_done(&[v, v + 2])
}

fn layer(mlp: LayerMlp) -> Layer {
    let conv = || ConvPool::new(ShortConv::new(vec![0; 2 * 3], 2, 3));
    Layer::new(2, 0, attention(), conv(), mlp, conv())
}

fn dense_layer() -> Layer {
    layer(LayerMlp::Dense(DenseMlp::new(4, 0)))
}

fn routed_layer() -> Layer {
    let w = MoeWeights {
        router_w: 2 * 5,
        router_bias: 4,
        experts: 4,
        shared: 1,
    };
    let off = ReadSwitches {
        seq: true,
        reuse: false,
        pipeline: false,
        skip_prefetch: false,
        par: false,
    };
    layer(LayerMlp::Moe(MoeLayer::new(2, 4, 2, 0, w, off, None, None, false)))
}

#[test]
fn a_batch_of_rows_leaves_what_single_steps_leave() {
    let mut one = dense_layer();
    let mut all = dense_layer();
    let mut last = Vec::new();
    for v in 1..4 {
        last = step(&mut one, v);
    }
    let kv = [1, 1, 2, 2, 3, 3];
    let (k_taps, v_taps) = all.attn.consume_rows(&kv, &kv, 3);
    assert_eq!(k_taps[2], vec![Some(vec![1, 1]), Some(vec![2, 2]), Some(vec![3, 3])]);
    assert_eq!(k_taps, v_taps);
    for v in 1..4u32 {
        assert_eq!(all.attn.attend(&[v, v], &[v, v]), 0);
    }
    all.attention_rows_done(&[1, 2, 2, 3, 3, 4], 3);
    assert_eq!(all.mlp_rows_done(&[1, 3, 2, 4, 3, 5], 3)[2], last);
    assert_eq!((all.len(), one.len()), (3, 3));
    assert_eq!(step(&mut all, 4), step(&mut one, 4));
}

#[test]
fn rows_of_several_sequences_settle_on_their_own_slots() {
    let mut l = dense_layer();
    l.ensure_slots(2);
    // The attention branch of both rows runs before the feed-forward branch of either.
    for (slot, v) in [(1usize, 7u32), (0, 9)] {
        l.select_slot(slot);
        l.attn.consume(&[v, v], &[v, v]);
        l.attn.attend(&[v, v], &[v, v]);
        assert_eq!(l.attention_done(&[v, v])[2], Some(vec![v, v]));
    }
    for (slot, v) in [(1usize, 7u32), (0, 9)] {
        l.select_slot(slot);
        assert_eq!(l.mlp_done(&[v, v]), vec![None, None, Some(vec![v, v])]);
        assert_eq!(l.len(), 1);
    }
    l.open_slot(1, true);
    assert!(l.is_empty());
    l.select_slot(0);
    assert_eq!(l.len(), 1);
}

#[test]
fn backends_attach_to_the_layers_they_serve() {
    let mut m = Model {
        hidden: 2,
        vocab: 3,
        layers: vec![dense_layer(), routed_layer(), routed_layer()],
    };
    m.attach_ov();
    m.attach_ov_moe(&[true, false, true], 3);
    let dense = match &m.layers[0].mlp {
        LayerMlp::Dense(d) => (d.ov(), d.ov_dense()),
        LayerMlp::Moe(_) => panic!("routed"),
    };
    assert_eq!(dense, (Some(0), None));
    m.layers[0].attach_ov_dense(0);
    m.layers[1].attach_ov_dense(1);
    let routed = |l: &Layer| l.moe().map(|m| (m.ov(), m.ov_moe));
    assert_eq!(routed(&m.layers[0]), None);
    assert_eq!(routed(&m.layers[1]), Some((Some(1), None)));
    assert_eq!(routed(&m.layers[2]), Some((Some(2), Some((2, 3)))));
    match &m.layers[0].mlp {
        LayerMlp::Dense(d) => assert_eq!(d.ov_dense(), Some(0)),
        LayerMlp::Moe(_) => panic!("routed"),
    }
}

#[test]
fn a_layer_keeps_its_sequences_apart() {
    let mut l = dense_layer();
    l.ensure_slots(2);
    step(&mut l, 5);
    assert_eq!(step(&mut l, 6), vec![None, Some(vec![5, 7]), Some(vec![6, 8])]);
    l.select_slot(1);
    assert_eq!(l.len(), 0);
    assert_eq!(step(&mut l, 9), vec![None, None, Some(vec![9, 11])]);
    l.select_slot(0);
    assert_eq!(l.len(), 2);
    let mut m = Model::new(2, 3, vec![l]);
    assert!(!m.early_prediction_reads_enabled(true, true));
    assert_eq!(m.expert_cache_stats().hits, 0);
    assert_eq!(m.layers[0].slot_bytes(), m.layers[0].cache_bytes());
    let saved = m.snapshot_prefix();
    assert_eq!((saved[0].len(), saved[0].is_empty()), (2, false));
    // Two rows of two values in each of six histories.
    assert_eq!((saved[0].attn.bytes(2), saved[0].bytes(2, 2)), (64, 96));
    m.reset(true);
    assert!(m.is_empty());
    m.restore_prefix(&saved);
    assert_eq!(m.len(), 2);
    assert_eq!(step(&mut m.layers[0], 7)[1], Some(vec![6, 8]));
    m.layers[0].select_slot(1);
    assert_eq!(m.layers[0].len(), 1);
    let t = LayerTiming::between(10, 25, 40, 3, true);
    assert_eq!((t.attention, t.mlp, t.total), (15, 15, 30));
}

#[test]
fn a_convolution_reads_the_same_in_one_go_and_row_by_row() {
    let mut a = ShortConv::new(vec![0; 2 * 3], 2, 3);
    let mut b = ShortConv::new(vec![0; 2 * 3], 2, 3);
    let u = [1, 2, 3, 4, 5, 6, 7, 8];
    let rows = a.prefill(&u, 4);
    for t in 0..4 {
        assert_eq!(rows[t], b.decode(&u[2 * t..2 * t + 2]));
    }
    assert_eq!(a.len(), b.len());
    assert_eq!(a.decode(&[0, 0]), b.decode(&[0, 0]));
}

#[test]
fn a_probe_leaves_the_live_sequence_alone() {
    let mut a = attention();
    a.consume(&[1, 1], &[2, 2]);
    a.attend(&[1, 1], &[2, 2]);
    let mut p = CpuProbe::new(&a, 16, 2, 99, vec![3, 3], vec![4, 4]);
    assert_eq!((p.slots.len(), p.context), (2, 15));
    let first = p.step(1);
    assert_eq!(first.0, vec![Some(vec![3, 3]); 3]);
    assert_eq!(first.1, vec![Some(vec![4, 4]); 3]);
    assert_eq!(p.step(1), first);
    assert_eq!(p.step(0), first);
    assert_eq!(a.len(), 1);
    let (taps, _) = a.consume(&[5, 5], &[6, 6]);
    assert_eq!(taps, vec![None, Some(vec![1, 1]), Some(vec![5, 5])]);
}

#[test]
fn heads_share_keys_and_tables_are_released_once() {
    let a = attention();
    assert_eq!((a.kv_head(0), a.kv_head(3)), (0, 0));
    let two = AttentionLayer::from_parts(
        AttnDims::sliding(2, 4, 2, 1, 8, 5, 0),
        ShortConv::new(vec![0; 2 * 3], 2, 3),
        ShortConv::new(vec![0; 2 * 3], 2, 3),
    );
    assert_eq!((two.kv_head(1), two.kv_head(2)), (0, 1));
    let mut b = attention();
    b.ensure_slots(3);
    assert!(b.rows_selectable(&[2, 0]));
    assert!(!b.rows_selectable(&[2, 2]));
    assert!(!b.rows_selectable(&[3]));
    let t = TableLens {
        wq: 1,
        wk: 2,
        wv: 3,
        wr: 4,
        wo: 5,
    };
    let mut p = Projections {
        owned: t,
        mapped: None,
    };
    assert!(!p.rust_projections_released(2));
    assert_eq!(p.release_rust_attention_weights(None), None);
    assert_eq!(p.release_rust_attention_weights(Some(false)), Some(0));
    assert!(!p.rust_projections_released(2));
    assert_eq!(p.release_rust_attention_weights(Some(true)), Some(30));
    assert!(p.rust_projections_released(2));
    assert_eq!(p.release_rust_projections(), 0);
    assert!(row_parallel_attention(None) && row_parallel_attention(Some("1")));
    assert!(!row_parallel_attention(Some(" 0 ")));
    let r = Ring::linear(2, 4);
    assert!(r.bounded());
    assert_eq!((r.row_count(), r.high_water_mark()), (4, 0));
}

#[test]
fn streams_open_in_place_and_decode_only_where_open() {
    let plan = StagePlan {
        rank: 1,
        total: 2,
        lo: 2,
        hi: 5,
        first: false,
        last: true,
        mode: ExpertsMode::Eager,
        experts: ExpertSet::All,
    };
    let mut r = InklingRunner {
        hidden: 2,
        max_seq: 16,
        eos: vec![5],
        pos: 0,
        streams: vec![],
        plan,
        layers: vec![dense_layer(), routed_layer(), routed_layer()],
        profile: None,
    };
    assert_eq!((r.arch_name(), r.hidden_size(), r.max_seq()), ("inkling", 2, 16));
    assert_eq!(r.eos_token_ids(), &[5]);
    assert!(r.supports_batched_prefill());
    r.attach_remote(&EpClient::new(2, 2, 4, 1, false));
    let under: Vec<_> = r.layers.iter().map(|l| l.moe().and_then(|m| m.remote())).collect();
    assert_eq!(under, vec![None, Some(3), Some(4)]);
    for l in r.layers.iter_mut() {
        step(l, 1);
    }
    r.forward_layers(0);
    r.forward_layers_batch(6, 1, 3);
    assert_eq!(r.pos, 4);
    r.reset(false);
    assert_eq!(r.pos, 0);
    assert!(r.layers.iter().all(|l| l.is_empty()));
    assert!(!r.configure_streams(0));
    assert!(r.configure_streams(2));
    assert_eq!(r.stream_capacity(), 2);
    assert!(!r.open_stream_at(2, false));
    assert!(r.open_stream_at(1, false));
    for l in r.layers.iter_mut() {
        step(l, 1);
    }
    r.prefill_stream(1, 2, 1);
    assert_eq!(r.open_stream(false), Some(0));
    assert!(r.layers.iter().all(|l| l.is_empty()));
    r.select_stream(1);
    assert!(r.layers.iter().all(|l| l.len() == 1));
    assert_eq!((r.stream_pos(0), r.stream_pos(1)), (0, 1));
    r.close_stream(0);
    assert!(r.streams_decodable(&[1]));
    assert!(!r.streams_decodable(&[0]));
    assert!(!r.streams_decodable(&[1, 1]));
    for l in r.layers.iter_mut() {
        if let LayerMlp::Moe(m) = &mut l.mlp {
            m.expert_cache.stats = ExpertCacheStats::sized(5 << 19);
            m.expert_cache.stats.retained_bytes = 3 << 19;
            m.expert_cache.stats.hits = 7;
        }
    }
    assert_eq!(r.expert_cache_stats_total().hits, 14);
    assert_eq!(r.profile(None, None), None);
    r.enable_profile();
    assert_eq!(r.profile.map(|p| p.decode_attn_ns), Some(0));
    let head = OvHeadStats {
        calls: 2,
        call_ns: 9,
        fallbacks: 0,
    };
    let p = r.profile(None, Some(head)).unwrap();
    assert_eq!((p.cache_hits, p.cache_retained_mib, p.cache_capacity_mib), (14, 3, 5));
    assert_eq!((p.ov_attn_calls, p.ov_head_calls, p.ov_head_ns), (0, 2, 9));
}

#[test]
fn a_fused_frame_adds_each_worker_once() {
    let client = EpClient::new(3, 1, 6, 0, true);
    // Row 0 goes to workers 2 and 0, row 1 to worker 0 alone.
    let per_row = vec![vec![(2, 1), (0, 1)], vec![(3, 1)]];
    let chunk = client.dispatch_chunk(&[7, 8], &per_row, &[0, 1, 2, 0, 1, 2], -1);
    assert_eq!(
        client.fused_reads(&chunk, 2),
        vec![vec![(0, 0), (2, 0)], vec![(0, 1)]]
    );
}
