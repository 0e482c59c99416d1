//! The expert-parallel protocol, routing, blocks of rows, device backends and layers.
use cascadia_engine_sparse_moe::inkling::ep::{
    default_homes, expert_home, reply_deadline, settle_frame, settle_reply, DispatchError,
    EpClient, ReplyError, ReplyEvent, WireLimits,
};
use cascadia_engine_sparse_moe::inkling::ep_bank::{
    check_bank_flags, is_gpu, place_outputs, BankError, BankFlags, DeviceProbe, ExpertBank,
    ExpertDispatchBody, GpuError, ServeError, SlotBackend,
};
use cascadia_engine_sparse_moe::inkling::ep_worker::{
    ExpertWorkerEngine, FrameAction, FrameKind, ServeOutcome, StepOutcome, StepStart,
};
use cascadia_engine_sparse_moe::inkling::expert_counts::Counts;
use cascadia_engine_sparse_moe::inkling::ffn::deinterleave_w13;
use cascadia_engine_sparse_moe::inkling::gate::{inkling_gate, GateOut};
use cascadia_engine_sparse_moe::inkling::loader::ExpertSet;
use cascadia_engine_sparse_moe::inkling::model::{argmax, segment_rows, Greedy};
use cascadia_engine_sparse_moe::inkling::moe::{
    median, pipeline_read_layer_count, slot_begin, PipelineCount, SlotAction, SlotFacts,
};
use cascadia_engine_sparse_moe::inkling::moe_block::{plan_block, row_terms, Term};
use cascadia_engine_sparse_moe::inkling::ov_expert::{
    expert_cost_bytes, is_fatal_resource_error, Lookup, OvExperts, OvStats,
};
use cascadia_engine_sparse_moe::inkling::ov_head::{HeadOutput, HeadState, OvHead};
use cascadia_engine_sparse_moe::inkling::ov_moe::{
    bucket_rows, is_fused_profile, pow2_ceil, small_buckets, up_scale_exponent,
};
use cascadia_engine_sparse_moe::inkling::relpos::RelPos;
use cascadia_engine_sparse_moe::inkling::ring::Ring;
use cascadia_engine_sparse_moe::inkling::stage::even_layer_split;

#[test]
fn w13_even_rows_are_gate_odd_rows_are_up() {
    // inter 2, hidden 2: rows g0, u0, g1, u1.
    let w13 = [1u16, 1, 2, 2, 3, 3, 4, 4];
    let (g, u) = deinterleave_w13(&w13, 2, 2);
    assert_eq!(g, vec![1, 1, 3, 3]);
    assert_eq!(u, vec![2, 2, 4, 4]);
}

#[test]
fn expert_home_is_modulo_and_covers_every_worker() {
    for w in 1..=7usize {
        let mut seen = vec![0usize; w];
        for id in 0..258usize {
            let h = expert_home(id, w);
            assert_eq!(h, id % w);
            seen[h] += 1;
        }
        assert!(seen.iter().all(|&n| n > 0));
    }
    assert_eq!(default_homes(5, 2), vec![0, 1, 0, 1, 0]);
}

#[test]
fn reply_deadline_widens_for_batches_but_stays_under_the_ceiling() {
    let base = 30_000_000_000u128;
    for ceiling in [None, Some(600_000_000_000u128)] {
        let one = reply_deadline(1, base, 10, ceiling);
        let batch = reply_deadline(64, base, 10, ceiling);
        assert!(batch >= one);
        if let Some(c) = ceiling {
            assert!(batch < c);
        }
    }
}

fn bank() -> ExpertBank {
    ExpertBank {
        layers: vec![vec![], vec![0, 1, 2, 3]],
        moe: vec![false, true],
        hidden: 4,
        inter: 8,
        n_routed: 3,
        n_shared: 1,
        index: 0,
        count: 1,
        fused: false,
        require_gpu: false,
        cpu_calls: 0,
        cpu_f16_reference: false,
        wire_f16_replies: 0,
        wire_f32_replies: 0,
        wire_tensor_bytes: 0,
        wire_f32_equivalent_bytes: 0,
    }
}

fn frame(rows: u32, k: u32, ids: Vec<i32>) -> ExpertDispatchBody {
    ExpertDispatchBody {
        layer: 1,
        rows,
        k,
        hidden: vec![0; rows as usize * 4],
        hidden_shape: [rows, 4, 1],
        ids,
        ids_shape: [rows, k, 1],
    }
}

#[test]
fn requiring_gpu_rejects_a_cpu_bank() {
    let mut bank = bank();
    assert!(bank.require_gpu(None).is_err());
    assert!(!bank.require_gpu);
}

#[test]
fn strict_dispatch_never_falls_back_to_cpu() {
    let mut bank = bank();
    bank.require_gpu = true;
    let groups = bank.serve(&frame(1, 1, vec![0]), 64, -1).expect("frame");
    assert_eq!(groups.len(), 1);
    // No backend answers for the slot.
    assert!(matches!(
        bank.slot_backend(false, false),
        SlotBackend::Forbidden
    ));
    assert_eq!(bank.cpu_calls, 0);
    bank.require_gpu = false;
    assert!(matches!(
        bank.slot_backend(false, true),
        SlotBackend::Host { note: true }
    ));
    assert_eq!(bank.cpu_calls, 1);
}

#[test]
fn a_strict_bank_names_what_its_device_lacks() {
    let mut b = bank();
    let probe = |device: &str, named: bool, last: bool| DeviceProbe {
        device: device.to_string(),
        named,
        compiled: vec![vec![], vec![true, true, true, last]],
    };
    assert!(matches!(b.require_gpu(None), Err(GpuError::NoDevice)));
    assert!(matches!(
        b.require_gpu(Some(&probe("CPU", true, true))),
        Err(GpuError::NotAGpu)
    ));
    assert!(matches!(
        b.require_gpu(Some(&probe("GPU.0", false, true))),
        Err(GpuError::QueryFailed)
    ));
    assert!(matches!(
        b.require_gpu(Some(&probe("GPU.0", true, false))),
        Err(GpuError::MissingIr { layer: 1, id: 3 })
    ));
    assert!(b.require_gpu(Some(&probe("GPU.0", true, true))).is_ok());
    assert!(b.require_gpu);
    assert!(is_gpu("GPU") && !is_gpu("NPU"));
}

#[test]
fn a_frame_is_refused_for_the_first_thing_wrong_with_it() {
    let b = bank();
    let serve = |f: ExpertDispatchBody| match b.serve(&f, 2, -1) {
        Ok(_) => None,
        Err(e) => Some(e),
    };
    let with = |edit: &dyn Fn(&mut ExpertDispatchBody)| {
        let mut f = frame(2, 2, vec![0, 1, 2, -1]);
        edit(&mut f);
        f
    };
    assert!(serve(with(&|_| {})).is_none());
    assert!(matches!(
        serve(with(&|f| f.layer = 0)),
        Some(ServeError::DenseLayer { layer: 0 })
    ));
    assert!(matches!(
        serve(with(&|f| f.layer = 2)),
        Some(ServeError::LayerOutOfRange { layer: 2, layers: 2 })
    ));
    assert!(matches!(
        serve(frame(3, 1, vec![0, 0, 0])),
        Some(ServeError::Rows { rows: 3 })
    ));
    assert!(matches!(
        serve(with(&|f| f.k = 0)),
        Some(ServeError::ZeroSlots)
    ));
    assert!(matches!(
        serve(with(&|f| f.hidden_shape[1] = 5)),
        Some(ServeError::HiddenShape)
    ));
    assert!(matches!(
        serve(with(&|f| f.ids_shape[2] = 2)),
        Some(ServeError::IdsShape)
    ));
    assert!(matches!(
        serve(with(&|f| f.ids[1] = -7)),
        Some(ServeError::InvalidId { value: -7 })
    ));
    assert!(matches!(
        serve(with(&|f| f.ids[1] = 9)),
        Some(ServeError::NotOwned { id: 9 })
    ));
}

#[test]
fn outputs_go_back_to_their_slots_and_pads_stay_zero() {
    let b = bank();
    let ids = vec![2, 0, -1, 2];
    let groups = b.serve(&frame(2, 2, ids.clone()), 8, -1).expect("frame");
    let ys: Vec<Vec<Vec<u32>>> = groups
        .iter()
        .map(|g| {
            g.slots
                .iter()
                .map(|&s| vec![100 * g.id as u32 + s as u32; 4])
                .collect()
        })
        .collect();
    let out = place_outputs(&groups, &ys, &ids, -1, 4);
    assert_eq!(out[..4], [200; 4]);
    assert_eq!(out[4..8], [1; 4]);
    assert_eq!(out[8..12], [0; 4]);
    assert_eq!(out[12..], [203; 4]);
}

#[test]
fn worker_switches_are_checked_first() {
    let flags = BankFlags {
        own: false,
        cpu_f16_reference: false,
        stream_cpu: false,
        fused: false,
        ov_experts: false,
    };
    assert_eq!(check_bank_flags(0, 1, flags, false), Ok(()));
    assert_eq!(
        check_bank_flags(2, 2, flags, false),
        Err(BankError::IndexOutOfRange { index: 2, count: 2 })
    );
    let mut reference = flags;
    reference.cpu_f16_reference = true;
    assert_eq!(
        check_bank_flags(0, 1, reference, false),
        Err(BankError::ReferenceNeedsStreaming)
    );
    let mut own = flags;
    own.own = true;
    assert_eq!(
        check_bank_flags(0, 1, own, false),
        Err(BankError::OwningNeedsPlacement)
    );
}

#[test]
fn rows_are_checked_cut_and_shared_out() {
    let client = EpClient::new(2, 2, 4, 1, false);
    let limits = WireLimits {
        max_batch: 2,
        max_tensor_bytes: 1 << 20,
        pad: -1,
    };
    let rows = vec![vec![(1usize, 9u32), (4, 8)], vec![], vec![(2, 7)]];
    assert_eq!(client.check_rows(6, &rows).ok(), Some(2));
    assert!(matches!(
        client.check_rows(5, &rows),
        Err(DispatchError::RowsLength {
            got: 5,
            rows: 3,
            hidden: 2
        })
    ));
    assert!(matches!(
        client.check_rows(2, &[vec![(5, 0)]]),
        Err(DispatchError::ExpertOutOfRange { row: 0, id: 5 })
    ));
    assert!(matches!(
        EpClient::new(0, 2, 4, 1, false).check_rows(0, &[]),
        Err(DispatchError::NoWorkers)
    ));
    let fused = EpClient::new(2, 2, 4, 1, true);
    assert!(matches!(
        fused.check_rows(2, &[vec![(1, f32::NAN.to_bits())]]),
        Err(DispatchError::NonFiniteWeight { row: 0 })
    ));
    assert!(matches!(
        fused.check_rows(2, &[vec![(1, 0), (1, 0)]]),
        Err(DispatchError::DuplicateExpert { row: 0 })
    ));
    assert_eq!(client.dispatch(limits, 6, &rows).ok(), Some(vec![(0, 2), (2, 3)]));
    let homes = default_homes(5, 2);
    let hidden = vec![10, 11, 20, 21, 30, 31];
    let chunk = client.dispatch_chunk(&hidden, &rows, &homes, -1);
    let shares: Vec<bool> = chunk.shares.iter().map(|s| s.is_some()).collect();
    assert_eq!(shares, vec![true, true]);
    let w0 = chunk.shares[0].as_ref().unwrap();
    assert_eq!((w0.rows, w0.k), (2, 1));
    assert_eq!(w0.ids, vec![4, 2]);
    assert_eq!(w0.hidden_rows, vec![10, 11, 30, 31]);
    let w1 = chunk.shares[1].as_ref().unwrap();
    assert_eq!((w1.rows, w1.ids.clone()), (1, vec![1]));
    let reads = client.gate_reads(&chunk, &rows, &homes);
    assert_eq!(reads, vec![vec![(1, 0), (0, 0)], vec![], vec![(0, 1)]]);
    assert!(client.with_placement(2, 4, 2).is_none());
}

#[test]
fn a_reply_is_settled_by_its_shape() {
    let ok = ReplyEvent::Result {
        data: vec![1; 8],
        rows: 2,
        k: 2,
        hidden: 2,
    };
    assert!(matches!(settle_reply(ok, 2, 2, 2, false), (Ok(_), false)));
    let short = ReplyEvent::Result {
        data: vec![1; 7],
        rows: 2,
        k: 2,
        hidden: 2,
    };
    assert!(matches!(
        settle_reply(short, 2, 2, 2, false),
        (Err(ReplyError::Shape { values: 7, .. }), false)
    ));
    assert!(matches!(
        settle_reply(ReplyEvent::TimedOut, 1, 1, 1, false),
        (Err(ReplyError::NoReply), true)
    ));
    let text = || "why".to_string();
    let settled = |e: ReplyEvent| match settle_reply(e, 1, 1, 1, false) {
        (Err(e), false) => e,
        _ => panic!("settled"),
    };
    assert!(matches!(settled(ReplyEvent::SendFailed { reason: text() }), ReplyError::Send { .. }));
    assert!(matches!(settled(ReplyEvent::Rejected { reason: text() }), ReplyError::Rejected { .. }));
    assert!(matches!(settled(ReplyEvent::BodyFailed { reason: text() }), ReplyError::Body { .. }));
    assert!(matches!(
        settled(ReplyEvent::OtherFrame { kind: text() }),
        ReplyError::UnexpectedFrame { .. }
    ));
    assert!(matches!(settled(ReplyEvent::Closed), ReplyError::Closed));
    assert!(matches!(settled(ReplyEvent::KindFailed { reason: text() }), ReplyError::Kind { .. }));
    let all = settle_frame(3, vec![(2, Ok(vec![5])), (0, Ok(vec![6]))]);
    assert_eq!(
        all.ok(),
        Some(vec![Some(vec![6]), None, Some(vec![5])])
    );
    match settle_frame(2, vec![(0, Err(ReplyError::Closed)), (1, Ok(vec![]))]) {
        Err(errs) => assert_eq!((errs.len(), errs[0].0), (1, 0)),
        Ok(_) => panic!("a failed frame was taken"),
    }
}

#[test]
fn a_worker_serves_dispatch_frames_and_reports_a_loss_once() {
    let mut e = ExpertWorkerEngine::new();
    assert_eq!(e.serve_one(Some(FrameKind::ExpertDispatch)), FrameAction::Serve);
    assert_eq!(
        e.serve_one(Some(FrameKind::FusedExpertDispatch)),
        FrameAction::ServeFused
    );
    assert_eq!(
        e.serve_one(Some(FrameKind::RestorePrefix)),
        FrameAction::DrainAndReject
    );
    assert_eq!(e.serve_one(Some(FrameKind::Other)), FrameAction::Reject);
    assert_eq!(e.step_begin(), StepStart::ServeOne);
    e.served();
    assert_eq!(e.frames_served(), 1);
    assert_eq!(e.serve_one(None), FrameAction::Closed);
    assert_eq!(e.step_end(ServeOutcome::Done), StepOutcome::NotConnected);
    assert_eq!(e.step_begin(), StepStart::End(StepOutcome::Backoff));
    let mut f = ExpertWorkerEngine::new();
    assert_eq!(
        f.step_end(ServeOutcome::Failed { connection_fatal: false }),
        StepOutcome::Backoff
    );
    assert_eq!(
        f.step_end(ServeOutcome::Failed { connection_fatal: true }),
        StepOutcome::Fatal
    );
    assert_eq!(f.step_begin(), StepStart::End(StepOutcome::Backoff));
}

#[test]
fn counts_routed_selections_and_excludes_shared_weights() {
    let mut counts = Counts::new(256);
    for i in 0..256 {
        counts.observe(&GateOut {
            idx: vec![i],
            w: vec![0.25f32.to_bits()],
            gammas: vec![0.5f32.to_bits(), 0.25f32.to_bits()],
        });
    }
    assert_eq!(counts.rows, 256);
    assert_eq!(counts.summary(), [62500, 125000, 250000, 3906, 256]);
    for _ in 0..256 {
        counts.observe(&GateOut {
            idx: vec![0],
            w: vec![0.25f32.to_bits()],
            gammas: vec![],
        });
    }
    assert_eq!(counts.summary(), [531250, 562500, 625000, 501953, 256]);
}

#[test]
fn weight_rescale_factor_is_an_exact_power_of_two() {
    let p = |v: f32| f32::from_bits(pow2_ceil(v.to_bits()));
    assert_eq!(p(0.0), 1.0);
    assert_eq!(p(0.7), 1.0);
    assert_eq!(p(1.0), 1.0);
    assert_eq!(p(1.5), 2.0);
    assert_eq!(p(800.0), 1024.0);
    assert_eq!(p(1024.0), 1024.0);
    assert_eq!(p(f32::NAN), 1.0);
    assert_eq!(p(f32::INFINITY), 1.0);
    for &(w, y) in &[(97.3f32, 1873.25f32), (105.0, -0.0371), (3.1e-3, 4.2e2)] {
        let f = p(800.0);
        assert_eq!((w / f) * y * f, w * y);
    }
}

#[test]
fn json_fields_are_read_from_text() {
    assert_eq!(up_scale_exponent(None), 0);
    assert_eq!(up_scale_exponent(Some("{\"up_scale_exponent\": 5}")), 5);
    assert_eq!(up_scale_exponent(Some("{\"up_scale_exponent\": \"5\"}")), 0);
    assert_eq!(up_scale_exponent(Some("not json")), 0);
    assert!(!is_fused_profile("{}"));
}

#[test]
fn rows_are_padded_to_the_smallest_shape_that_holds_them() {
    let b = small_buckets(None);
    for rows in 1..200usize {
        let n = bucket_rows(&b, rows);
        assert!(n >= rows);
    }
}

#[test]
fn nan_scores_rank_last() {
    let f = |v: &[f32]| -> Vec<u32> { v.iter().map(|x| x.to_bits()).collect() };
    let scores = f(&[0.1, 0.9, 0.5, 0.3]);
    let choice = f(&[0.2, f32::NAN, 0.2]);
    let s = inkling_gate(&scores, &choice, 2);
    assert_eq!(s.idx, vec![0, 2]);
    assert_eq!(s.terms, f(&[0.1, 0.5, 0.3]));
}

#[test]
fn a_block_adds_up_in_gate_order() {
    let g = |a: usize, b: usize| GateOut {
        idx: vec![a, b],
        w: vec![1, 2],
        gammas: vec![3],
    };
    let p = plan_block(&[g(2, 0), g(0, 2)], 3, 1, 2);
    assert_eq!(p.unique, vec![0, 2]);
    assert_eq!(p.occ, vec![vec![1, 2], vec![], vec![0, 3]]);
    let t = row_terms(&p, 1, 2, 2, 1, 1);
    assert_eq!(t.len(), 3);
    assert!(matches!(t[0], (1, Term::Slot(2))));
    assert!(matches!(t[1], (2, Term::Slot(3))));
    assert!(matches!(t[2], (3, Term::Shared(_))));
}

#[test]
fn a_compiled_expert_is_found_until_the_budget_pushes_it_out() {
    let cost = expert_cost_bytes(1 << 20);
    let mb = 2 * cost / (1 << 20) + 1;
    let mut o = OvExperts::from_dir(8, 16, mb);
    assert_eq!(o.lookup(1, 2), Lookup::Compile);
    assert!(o.compiled(1, 2, 1 << 20).is_empty());
    assert_eq!(o.lookup(1, 2), Lookup::Hit);
    assert!(o.compiled(1, 3, 1 << 20).is_empty());
    assert_eq!(o.lookup(1, 2), Lookup::Hit);
    // the least recently used one leaves
    assert_eq!(o.compiled(1, 4, 1 << 20).len(), 1);
    assert_eq!(o.lookup(1, 3), Lookup::Compile);
    assert_eq!(o.lookup(1, 2), Lookup::Hit);
    assert_eq!(o.cached().0, 2);
    assert!(o.mark_failed(1, 9) && !o.mark_failed(1, 9));
    assert_eq!(o.lookup(1, 9), Lookup::Unusable);
    assert_eq!(o.failed_keys(), vec![(1, 9)]);
    assert!(!is_fatal_resource_error("shape mismatch"));
}

#[test]
fn a_small_expert_cache_is_bounded_by_entries_too() {
    let mut o = OvExperts::from_dir(8, 2, 1 << 20);
    for e in 0..5 {
        o.compiled(0, e, 10);
    }
    assert_eq!(o.cached().0, 2);
    assert_eq!(o.lookup(0, 4), Lookup::Hit);
    assert_eq!(o.lookup(0, 2), Lookup::Compile);
}

#[test]
fn head_output_is_read_as_little_endian_words() {
    let mut h = OvHead::new(2);
    assert_eq!(h.warm(), HeadState::Compile);
    h.compile_settled(true);
    assert_eq!(h.warm(), HeadState::Ready);
    let out: Vec<u8> = [1.5f32, -2.0, 7.0]
        .iter()
        .flat_map(|v| v.to_le_bytes())
        .collect();
    match h.logits(&out, 5) {
        HeadOutput::Accepted(v) => {
            assert_eq!(v, vec![1.5f32.to_bits(), (-2.0f32).to_bits()])
        }
        HeadOutput::TooShort { .. } => panic!("short"),
    }
    assert!(matches!(h.logits(&out[..4], 5), HeadOutput::TooShort { .. }));
}

#[test]
fn shards_cover_every_id_once() {
    for id in 0..40usize {
        let owners = (0..3u32)
            .filter(|&i| ExpertSet::Shard { index: i, count: 3 }.owns(id))
            .count();
        assert_eq!(owners, 1);
        assert!(ExpertSet::All.owns(id) && !ExpertSet::Empty.owns(id));
    }
}

#[test]
fn an_even_split_covers_every_layer() {
    let mut next = 0usize;
    for rank in 0..4u32 {
        let (lo, hi) = even_layer_split(66, rank, 4);
        assert_eq!(lo, next);
        assert!(hi - lo == 16 || hi - lo == 17);
        next = hi;
    }
    assert_eq!(next, 66);
    assert_eq!(even_layer_split(66, 0, 0), (0, 66));
}

#[test]
fn a_rewound_ring_reads_what_it_held() {
    let mut r = Ring::wrapping(2, 3, 2);
    for i in 0..7u32 {
        r.push(&[i, i + 1]);
    }
    assert_eq!(r.len(), 7);
    assert_eq!(r.row(6), &vec![6, 7]);
    let saved = r.snapshot();
    assert!(r.truncatable(5));
    r.truncate(5);
    r.push(&[50, 51]);
    assert_eq!(r.row(5), &vec![50, 51]);
    r.restore(&saved);
    assert_eq!(r.len(), 7);
    assert_eq!(r.row(5), &vec![5, 6]);
}

#[test]
fn a_future_or_far_key_has_no_bias() {
    let t = RelPos::new(vec![1, 2, 3, 4, 5, 6], 2, 3);
    assert_eq!(t.column(1), Some(vec![2, 5]));
    assert_eq!(t.column(3), None);
    assert_eq!(t.row(4, &[5, 4, 2, 0]), vec![None, Some(0), Some(2), None]);
}

#[test]
fn greedy_takes_the_first_greatest() {
    let f = |v: &[f32]| -> Vec<u32> { v.iter().map(|x| x.to_bits()).collect() };
    assert_eq!(argmax(&f(&[1.0, 3.0, 3.0, 2.0])), 1);
    let mut g = Greedy::new(2);
    assert_eq!(g.step(&f(&[0.0, 1.0])), Some(1));
    g.step(&f(&[5.0, 1.0]));
    assert_eq!(g.out, vec![1, 0]);
}

#[test]
fn small_helpers() {
    assert_eq!(median(&[9, 1, 5]), 5);
    let mut c = PipelineCount::new();
    c.note();
    c.note();
    assert_eq!(pipeline_read_layer_count(&c), 2);
    assert_eq!(segment_rows(&[(3, 2), (1, 1)]).len(), 2);
    let facts = SlotFacts {
        mapped: true,
        cached: true,
        predicted: false,
        caching: true,
        resident: false,
    };
    assert_eq!(slot_begin(facts), SlotAction::FromCache);
}

#[test]
fn a_ring_rolls_back_no_further_than_its_slack() {
    let mut r = Ring::wrapping(2, 8, 2);
    for i in 0..5u32 {
        r.push(&[i, i]);
    }
    // nothing was overwritten yet, and still only the slack can be taken back
    assert!(r.truncatable(5) && r.truncatable(4) && r.truncatable(3));
    assert!(!r.truncatable(2) && !r.truncatable(0) && !r.truncatable(6));
    r.truncate(3);
    assert!(!r.truncatable(2));
    let saved = r.snapshot();
    let mut back = r.empty_like();
    back.restore(&saved);
    assert_eq!(back.len(), 3);
    assert_eq!(back.row(2), &vec![2, 2]);
    let mut full = Ring::linear(2, 8);
    for i in 0..5u32 {
        full.push(&[i, i]);
    }
    assert!(full.truncatable(0));
}

#[test]
fn a_bank_tells_what_it_and_its_backends_counted() {
    let b = ExpertBank {
        require_gpu: true,
        cpu_calls: 3,
        wire_f16_replies: 4,
        wire_f32_replies: 5,
        wire_tensor_bytes: 6,
        wire_f32_equivalent_bytes: 7,
        ..bank()
    };
    let ov = OvStats {
        hits: 10,
        misses: 2,
        hit_ns: 0,
        miss_ns: 0,
        fallbacks: 1,
    };
    let s = b.backend_stats(Some(ov), None, (8, 9));
    assert_eq!((s.gpu_required, s.cpu_calls, s.cpu_f16_reference), (true, 3, false));
    assert_eq!((s.wire_f16_replies, s.wire_f32_replies), (4, 5));
    assert_eq!((s.wire_tensor_bytes, s.wire_f32_equivalent_bytes), (6, 7));
    assert_eq!((s.uncached_read_bytes, s.uncached_read_fallbacks), (8, 9));
    assert_eq!((s.ov_successful_calls, s.ov_cache_hits), (12, 10));
    assert_eq!((s.ov_cache_misses, s.ov_fallbacks), (2, 1));
    assert!(s.fused.is_none());
    assert_eq!(bank().backend_stats(None, None, (0, 0)).ov_successful_calls, 0);
}

#[test]
fn shares_grow_to_the_whole() {
    let counts = |selections: Vec<u64>| Counts { rows: 0, selections };
    let mut few = vec![0u64; 100];
    few[3] = 6;
    few[90] = 2;
    assert_eq!(counts(few.clone()).summary(), [1_000_000, 1_000_000, 1_000_000, 750_000, 2]);
    few.reverse();
    assert_eq!(counts(few).summary(), [1_000_000, 1_000_000, 1_000_000, 750_000, 2]);
    assert_eq!(counts(vec![0; 100]).summary(), [0, 0, 0, 0, 0]);
    let s = counts((0..100).collect()).summary();
    assert!(s[3] <= s[0] && s[0] <= s[1] && s[1] <= s[2] && s[2] <= 1_000_000);
    assert_eq!(s[4], 99);
}
