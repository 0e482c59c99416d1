//! Every refusal with an input that brings it, and the state that a stage keeps.
use cascadia_engine_sparse_moe::inkling::attn::{
    check_parts, AttentionLayer, AttnDims, PartLens, PartsError,
};
use cascadia_engine_sparse_moe::inkling::conv::ShortConv;
use cascadia_engine_sparse_moe::inkling::ep::EpClient;
use cascadia_engine_sparse_moe::inkling::ep_bank::{
    shard_files, BankBuilder, BankError, BankFlags, ExpertFacts,
};
use cascadia_engine_sparse_moe::inkling::loader::{
    check_manifest, check_stage, load_layer, moe_expert_files, EdgeTables, ExpertSet,
    ExpertsError, InklingManifest, LayerError, LayerTensors, ManifestError, MlpPlan, StageError,
    TensorShape,
};
use cascadia_engine_sparse_moe::inkling::model::{
    check_head, check_layer, check_model, HeadFault, LayerFault, LayerLens, ModelFault, ModelLens,
};
use cascadia_engine_sparse_moe::inkling::moe::{check_moe, MoeError, MoeWeights};
use cascadia_engine_sparse_moe::inkling::ov_attn::{AttnOutput, AttnStart, OvAttn};
use cascadia_engine_sparse_moe::inkling::ov_moe::{
    decode_layer_list, device_ns, is_fused_profile, CallStart, OutputOutcome, OvMoe,
};
use cascadia_engine_sparse_moe::text::{chars_of, split_lines};
use cascadia_engine_sparse_moe::inkling::stage::{
    layer_split, ExpertsMode, InklingRunner, SplitError, StagedError,
};

fn manifest() -> InklingManifest {
    InklingManifest {
        arch: "inkling".to_string(),
        num_layers: 3,
        hidden_size: 64,
        vocab_size: 100,
        unpadded_vocab_size: Some(90),
        num_attention_heads: 4,
        num_kv_heads: 2,
        head_dim: 16,
        swa_num_attention_heads: None,
        swa_num_kv_heads: None,
        swa_head_dim: None,
        d_rel: 8,
        rel_extent: 32,
        sliding_window: 16,
        layer_types: vec![
            "sliding".to_string(),
            "global".to_string(),
            "sliding".to_string(),
        ],
        dense_layers: vec![0],
        dense_intermediate: 128,
        moe_intermediate: 32,
        num_experts: 4,
        top_k: 2,
        n_shared_experts: 1,
        route_scale: 1.0f32.to_bits(),
        rms_norm_eps: 1e-6f32.to_bits(),
        log_scaling_n_floor: None,
        log_scaling_alpha: 0,
        logits_mup_width_multiplier: 1.0f32.to_bits(),
        conv_kernel_size: 4,
        eos_token_ids: vec![1],
        has_mtp: false,
    }
}

fn with(edit: &dyn Fn(&mut InklingManifest)) -> Option<ManifestError> {
    let mut m = manifest();
    edit(&mut m);
    check_manifest(&m).err()
}

#[test]
fn a_manifest_is_refused_for_the_first_thing_wrong_with_it() {
    let zero = 0.0f32.to_bits();
    assert_eq!(with(&|m| m.arch = "other".to_string()), Some(ManifestError::Arch));
    assert_eq!(
        with(&|m| m.num_layers = 4),
        Some(ManifestError::LayerTypesLength { entries: 3, layers: 4 })
    );
    assert_eq!(
        with(&|m| m.layer_types[1] = "odd".to_string()),
        Some(ManifestError::UnknownLayerType { layer: 1 })
    );
    assert_eq!(
        with(&|m| m.moe_intermediate = 0),
        Some(ManifestError::MoeIntermediateZero)
    );
    assert_eq!(
        with(&|m| m.dense_intermediate = 0),
        Some(ManifestError::DenseIntermediateZero)
    );
    assert_eq!(
        with(&|m| m.logits_mup_width_multiplier = zero),
        Some(ManifestError::MupMultiplier { bits: zero })
    );
    assert_eq!(with(&|m| m.hidden_size = 65), Some(ManifestError::GroupSize));
    assert_eq!(
        with(&|m| m.dense_intermediate = 33),
        Some(ManifestError::DenseGroupSize)
    );
    assert_eq!(
        with(&|m| m.top_k = 5),
        Some(ManifestError::TopK { top_k: 5, num_experts: 4 })
    );
}

fn shape(dims: &[usize], values: usize) -> TensorShape {
    TensorShape {
        dims: dims.to_vec(),
        values,
    }
}

fn tensors() -> LayerTensors {
    LayerTensors {
        rel_proj: shape(&[8, 32], 256),
        k_sconv: shape(&[32, 4], 128),
        v_sconv: shape(&[32, 4], 128),
        router_bias: 4,
        router_weight: 5 * 64,
        attn_sconv: shape(&[64, 4], 256),
        mlp_sconv: shape(&[64, 4], 256),
    }
}

#[test]
fn a_layer_is_refused_for_the_first_tensor_that_does_not_fit() {
    let m = manifest();
    let load = |edit: &dyn Fn(&mut LayerTensors), set: ExpertSet| {
        let mut t = tensors();
        edit(&mut t);
        load_layer(&m, 1, 128, set, &t)
    };
    let shard = ExpertSet::Shard { index: 0, count: 2 };
    let err = |edit: &dyn Fn(&mut LayerTensors)| load(edit, ExpertSet::All).err();
    assert_eq!(err(&|t| t.rel_proj.dims = vec![9, 32]), Some(LayerError::RelProjShape));
    assert_eq!(
        err(&|t| t.rel_proj.dims = vec![8, 16]),
        Some(LayerError::RelExtent { extent: 16, want: 32 })
    );
    assert_eq!(err(&|t| t.k_sconv.values = 127), Some(LayerError::KeyConv));
    assert_eq!(err(&|t| t.v_sconv.dims = vec![]), Some(LayerError::ValueConv));
    assert_eq!(
        load(&|_| {}, shard).err(),
        Some(LayerError::Shard { index: 0, count: 2 })
    );
    assert_eq!(
        err(&|t| t.router_bias = 3),
        Some(LayerError::Router { bias: 3, weight: 320 })
    );
    assert_eq!(err(&|t| t.attn_sconv.values = 0), Some(LayerError::AttnConv));
    assert_eq!(err(&|t| t.mlp_sconv.values = 0), Some(LayerError::MlpConv));
    let ok = load(&|_| {}, ExpertSet::Empty).ok().unwrap();
    assert_eq!(ok.mlp, MlpPlan::RouterOnly);
    assert_eq!((ok.extent, ok.k_channels, ok.attn_channels), (32, 32, 64));
    assert_eq!(load(&|_| {}, ExpertSet::All).ok().unwrap().mlp, MlpPlan::Experts);
}

#[test]
fn edge_tables_and_expert_files() {
    let m = manifest();
    let tables = |embed: usize, norm: usize, unembed: usize| EdgeTables {
        embed: Some(embed),
        norm_and_unembed: Some((norm, unembed)),
    };
    assert!(check_stage(&m, tables(6400, 64, 6400)).is_ok());
    assert_eq!(check_stage(&m, tables(6399, 64, 6400)).err(), Some(StageError::Embed));
    assert_eq!(
        check_stage(&m, tables(6400, 63, 6400)).err(),
        Some(StageError::Norm { entries: 63 })
    );
    assert_eq!(check_stage(&m, tables(6400, 64, 1)).err(), Some(StageError::Unembed));
    assert_eq!(
        moe_expert_files(&m, 0, ExpertSet::All).err(),
        Some(ExpertsError::DenseLayer { layer: 0 })
    );
    assert_eq!(
        shard_files(&m, 1, 2, 2).err(),
        Some(ExpertsError::ShardOutOfRange { index: 2, count: 2 })
    );
    let files = shard_files(&m, 1, 0, 2).ok().unwrap();
    let names: Vec<(usize, &str)> = files.iter().map(|f| (f.0, f.1.as_str())).collect();
    assert_eq!(
        names,
        vec![(0, "expert_000.bin"), (2, "expert_002.bin"), (4, "expert_shared0.bin")]
    );
}

#[test]
fn a_bank_is_refused_for_what_its_files_are() {
    let flags = BankFlags {
        own: false,
        cpu_f16_reference: false,
        stream_cpu: true,
        fused: false,
        ov_experts: false,
    };
    let fact = |id: usize, len: Option<u64>| ExpertFacts {
        id,
        mapped_len: len,
        owned_bytes: 0,
    };
    let mut b = BankBuilder::new(0, 1, flags, Some(100));
    b.add_dense();
    assert_eq!(
        b.add_experts(&vec![fact(0, Some(100)), fact(1, Some(101))]),
        Err(BankError::FileTooLarge { layer: 1, id: 1 })
    );
    assert!(b.add_experts(&vec![fact(0, Some(100)), fact(1, Some(9))]).is_ok());
    let (bank, budget) = b.finish(&manifest(), None).ok().unwrap();
    assert_eq!((bank.n_experts(), bank.num_layers(), budget), (2, 2, None));
    assert!(bank.holds(1, 1) && !bank.holds(0, 0) && bank.is_moe_layer(1));
    let mut reference = flags;
    reference.cpu_f16_reference = true;
    let mut b = BankBuilder::new(0, 1, reference, None);
    assert_eq!(
        b.add_experts(&vec![fact(0, None)]),
        Err(BankError::ReferenceNeedsMapping)
    );
    let mut fused = flags;
    fused.fused = true;
    let done = |f: BankFlags, mb: Option<&str>| {
        BankBuilder::new(0, 1, f, None)
            .finish(&manifest(), mb)
            .map(|r| r.1)
    };
    assert_eq!(done(fused, Some("3")).ok(), Some(Some(3 << 20)));
    assert_eq!(done(fused, Some("0")).err(), Some(BankError::FusedBudget));
    fused.own = true;
    assert_eq!(done(fused, Some("3")).err(), Some(BankError::FusedOwnsNothing));
}

#[test]
fn attention_parts_must_fit() {
    let d = AttnDims::global(64, 4, 2, 16, 8, 128, 0);
    let good = PartLens {
        wq: 64 * 64,
        wk: 32 * 64,
        wv: 32 * 64,
        wr: 4 * 8 * 64,
        wo: 64 * 64,
        q_norm: 16,
        k_norm: 16,
        k_channels: 32,
        v_channels: 32,
        rel_dim: 8,
    };
    let err = |d: AttnDims, edit: &dyn Fn(&mut PartLens)| {
        let mut l = good;
        edit(&mut l);
        check_parts(d, l).err()
    };
    assert_eq!(err(d, &|_| {}), None);
    let mut e = d;
    e.n_heads = 0;
    assert_eq!(err(e, &|_| {}), Some(PartsError::EmptyHeads));
    e.n_heads = 5;
    assert_eq!(err(e, &|_| {}), Some(PartsError::HeadsNotMultiple));
    assert_eq!(err(d, &|l| l.wr = 1), Some(PartsError::Projection { index: 3 }));
    assert_eq!(err(d, &|l| l.q_norm = 1), Some(PartsError::QueryNorm));
    assert_eq!(err(d, &|l| l.k_norm = 1), Some(PartsError::KeyNorm));
    assert_eq!(err(d, &|l| l.k_channels = 1), Some(PartsError::KeyConv));
    assert_eq!(err(d, &|l| l.v_channels = 1), Some(PartsError::ValueConv));
    assert_eq!(err(d, &|l| l.rel_dim = 1), Some(PartsError::RelDim));
    let mut w = d;
    w.window = Some(0);
    assert_eq!(err(w, &|_| {}), Some(PartsError::EmptyWindow));
    let mut c = d;
    c.max_seq = 0;
    assert_eq!(err(c, &|_| {}), Some(PartsError::EmptyContext));
}

#[test]
fn weights_of_a_layer_and_of_the_model_must_fit() {
    let w = MoeWeights {
        router_w: 6 * 8,
        router_bias: 4,
        experts: 4,
        shared: 2,
    };
    assert!(check_moe(8, 2, w).is_ok());
    assert_eq!(check_moe(0, 2, w).err(), Some(MoeError::NoHidden));
    assert_eq!(
        check_moe(8, 2, MoeWeights { router_bias: 0, ..w }).err(),
        Some(MoeError::NoRoutedExperts)
    );
    assert_eq!(
        check_moe(8, 2, MoeWeights { router_w: 47, ..w }).err(),
        Some(MoeError::RouterShape { len: 47, n_routed: 4 })
    );
    assert_eq!(
        check_moe(8, 5, w).err(),
        Some(MoeError::TopK { top_k: 5, n_routed: 4 })
    );
    assert_eq!(
        check_moe(8, 2, MoeWeights { experts: 3, ..w }).err(),
        Some(MoeError::RoutedCount { held: 3, n_routed: 4 })
    );
    assert_eq!(
        check_moe(8, 2, MoeWeights { shared: 1, ..w }).err(),
        Some(MoeError::SharedCount { held: 1, n_shared: 2 })
    );
    let l = LayerLens {
        attn_norm: 8,
        mlp_norm: 8,
        attention: 8,
        attn_sconv: 8,
        mlp_sconv: 8,
        moe: Some(8),
    };
    assert!(check_layer(8, l).is_ok());
    assert_eq!(check_layer(8, LayerLens { attn_norm: 1, ..l }).err(), Some(LayerFault::AttnNorm));
    assert_eq!(check_layer(8, LayerLens { mlp_norm: 1, ..l }).err(), Some(LayerFault::MlpNorm));
    assert_eq!(
        check_layer(8, LayerLens { attention: 1, ..l }).err(),
        Some(LayerFault::AttentionHidden)
    );
    assert_eq!(
        check_layer(8, LayerLens { attn_sconv: 1, ..l }).err(),
        Some(LayerFault::AttnConvChannels)
    );
    assert_eq!(
        check_layer(8, LayerLens { mlp_sconv: 1, ..l }).err(),
        Some(LayerFault::MlpConvChannels)
    );
    assert_eq!(check_layer(8, LayerLens { moe: Some(1), ..l }).err(), Some(LayerFault::MoeHidden));
    let one = 1.0f32.to_bits();
    assert!(check_head(8, one, 3, 24).is_ok());
    assert_eq!(check_head(0, one, 3, 24).err(), Some(HeadFault::EmptyNorm));
    assert_eq!(check_head(8, f32::NAN.to_bits(), 3, 24).err(), Some(HeadFault::Mup));
    assert_eq!(
        check_head(8, one, 4, 24).err(),
        Some(HeadFault::Vocab { unpadded: 4, rows: 3 })
    );
    let lens = ModelLens {
        embed: 24,
        unembed: 24,
        embed_norm: 8,
        norm: 8,
    };
    let model = |l: ModelLens, unpadded: usize, layers: &[usize]| {
        check_model(8, 3, unpadded, l, layers).err()
    };
    assert_eq!(model(lens, 2, &[8, 8]), None);
    assert_eq!(model(ModelLens { embed: 1, ..lens }, 2, &[]), Some(ModelFault::EmbedShape));
    assert_eq!(model(ModelLens { unembed: 1, ..lens }, 2, &[]), Some(ModelFault::UnembedShape));
    assert_eq!(model(ModelLens { embed_norm: 1, ..lens }, 2, &[]), Some(ModelFault::EmbedNorm));
    assert_eq!(model(ModelLens { norm: 1, ..lens }, 2, &[]), Some(ModelFault::Norm));
    assert_eq!(
        model(lens, 4, &[]),
        Some(ModelFault::Vocab { unpadded: 4, vocab: 3 })
    );
    assert_eq!(model(lens, 2, &[8, 7]), Some(ModelFault::LayerHidden { layer: 1 }));
}

#[test]
fn a_stage_is_refused_for_its_range_or_its_workers() {
    let m = manifest();
    assert_eq!(
        layer_split(&m, 2, 2).err(),
        Some(SplitError::RankOutOfRange { rank: 2, total: 2 })
    );
    assert_eq!(
        layer_split(&m, 3, 5).err(),
        Some(SplitError::NoLayers { rank: 3, total: 5, lo: 3, hi: 3 })
    );
    let none = EpClient::new(0, 64, 4, 1, false);
    assert_eq!(
        InklingRunner::load_staged(&m, 0, 1, 0, 0, None, Some(&none)).err(),
        Some(StagedError::NoExpertWorkers)
    );
    let other = EpClient::new(2, 32, 4, 1, false);
    assert_eq!(
        InklingRunner::load_staged(&m, 0, 1, 0, 0, None, Some(&other)).err(),
        Some(StagedError::ClientDims { hidden: 32, n_routed: 4, n_shared: 1 })
    );
    assert_eq!(
        InklingRunner::load_staged(&m, 0, 1, 1, 9, None, None).err(),
        Some(StagedError::LayerRange { lo: 1, hi: 9, layers: 3 })
    );
    assert_eq!(
        InklingRunner::load_staged(&m, 3, 5, 0, 0, None, None).err(),
        Some(StagedError::Split(SplitError::NoLayers { rank: 3, total: 5, lo: 3, hi: 3 }))
    );
    let p = InklingRunner::load_staged(&m, 1, 2, 0, 0, Some("mmap"), None).ok().unwrap();
    assert_eq!((p.lo, p.hi, p.first, p.last), (2, 3, false, true));
    assert_eq!(p.mode, ExpertsMode::Mmap);
    assert_eq!(
        InklingRunner::load_staged(&m, 1, 2, 0, 0, None, None).ok().unwrap().mode,
        ExpertsMode::Eager
    );
    let mut r = InklingRunner::new(&m, 128, p, vec![]);
    assert!(r.configure_streams(2));
    assert_eq!(r.open_stream(false), Some(0));
    assert_eq!(r.open_stream(false), Some(1));
    assert_eq!(r.open_stream(false), None);
    r.prefill_stream(1, 3 * 64, 3);
    r.decode_streams(2 * 64, &[1, 0]);
    assert_eq!((r.stream_pos(0), r.stream_pos(1)), (1, 4));
    r.close_stream(0);
    assert_eq!(r.open_stream(false), Some(0));
    assert_eq!(r.stream_pos(0), 0);
}

#[test]
fn a_rewound_or_restored_layer_reads_its_earlier_keys() {
    let d = AttnDims::global(64, 2, 1, 2, 8, 16, 0);
    let conv = || ShortConv::new(vec![0; 2 * 3], 2, 3);
    let mut a = AttentionLayer::from_parts(d, conv(), conv());
    for i in 0..4u32 {
        let (taps, _) = a.consume(&[i, i], &[i + 50, i + 50]);
        assert_eq!(taps.len(), 3);
        assert_eq!(taps[2], Some(vec![i, i]));
        assert_eq!(taps[1], if i > 0 { Some(vec![i - 1, i - 1]) } else { None });
        assert_eq!(a.attend(&[10 * i, 0], &[i, 1]), 0);
    }
    assert_eq!(a.len(), 4);
    let saved = a.snapshot();
    a.truncate(2);
    assert_eq!(a.len(), 2);
    let (taps, _) = a.consume(&[9, 9], &[9, 9]);
    assert_eq!(taps[1], Some(vec![1, 1]));
    a.attend(&[0, 0], &[0, 0]);
    a.restore(&saved);
    assert_eq!(a.len(), 4);
    assert_eq!(a.state.k.row(3), &vec![30, 0]);
}

#[test]
fn device_calls_settle_and_fall_back() {
    let mut o = OvMoe::new(2, 3, 4, false, false, decode_layer_list(None), 1, vec![]);
    assert_eq!(o.call_begin(7, 0), CallStart::Nothing);
    assert_eq!(o.call_begin(7, 1), CallStart::Compile);
    assert!(!o.compile_settled(7, true, 5));
    assert_eq!(o.call_begin(7, 1), CallStart::Run);
    let one = 1.0f32.to_bits();
    match o.settle_output(7, vec![one; 4], 1, 2) {
        OutputOutcome::Accepted(v) => assert_eq!(v, vec![one; 2]),
        _ => panic!("refused"),
    }
    assert!(matches!(
        o.settle_output(7, vec![f32::NAN.to_bits(); 4], 1, 2),
        OutputOutcome::NotFinite { report: true }
    ));
    assert!(matches!(
        o.settle_output(7, vec![f32::NAN.to_bits(); 4], 1, 2),
        OutputOutcome::NotFinite { report: false }
    ));
    assert!(matches!(
        o.settle_output(7, vec![one; 3], 1, 2),
        OutputOutcome::WrongLength { report: true }
    ));
    assert_eq!(o.call_begin(7, 1), CallStart::Declined);
    assert_eq!(o.failed_layers(), vec![7]);
    assert_eq!((o.stats().fallbacks, o.stats().nonfinite), (4, 2));
    assert_eq!(device_ns("a\tb\tc\t15\nshort\nx\ty\tz\t2\n"), Some(17_000));
    assert!(is_fused_profile("n\tMOECompressed\tocl::moe::moe_3gemm_x\t1\n"));
    assert!(is_fused_profile("n\tMoe3GemmFused_Compressed\tk\t1"));
    assert!(!is_fused_profile("n\tMOECompressed\tother\t1"));

    let mut a = OvAttn::new(vec![]);
    assert_eq!(a.call_begin(1), AttnStart::Compile);
    assert!(!a.compile_settled(1, true, true));
    assert_eq!(a.call_begin(1), AttnStart::Run);
    assert!(matches!(
        a.settle_output(1, vec![1, 2, 3, 4], 1, 2),
        AttnOutput::Accepted(v) if v == vec![1, 2]
    ));
    assert!(matches!(
        a.settle_output(1, vec![1, 2, 3], 1, 2),
        AttnOutput::Misshaped { report: true }
    ));
    assert_eq!(a.call_begin(1), AttnStart::Declined);
}

#[test]
fn a_shard_of_experts_is_refused_on_dense_layers_too() {
    let mut m = manifest();
    let t = tensors();
    for dense in [vec![0], vec![1]] {
        m.dense_layers = dense;
        assert_eq!(
            load_layer(&m, 1, 128, ExpertSet::Shard { index: 1, count: 2 }, &t).err(),
            Some(LayerError::Shard { index: 1, count: 2 })
        );
        assert!(load_layer(&m, 1, 128, ExpertSet::All, &t).is_ok());
    }
}

#[test]
fn a_last_line_keeps_its_carriage_return() {
    assert_eq!(device_ns("a\tb\tc\t15\r\nx\ty\tz\t2\r"), Some(15_000));
    assert_eq!(device_ns("a\tb\tc\t15\r\nx\ty\tz\t2\r\n"), Some(17_000));
    let lines = |s: &str| -> Vec<String> {
        split_lines(&chars_of(s)).iter().map(|l| l.iter().collect()).collect()
    };
    assert_eq!(lines("1\r\n5\r"), vec!["1", "5\r"]);
    assert_eq!(lines("5\r\n"), vec!["5", ""]);
}

#[test]
fn the_banks_of_all_workers_split_every_layer() {
    let m = manifest();
    let flags = BankFlags {
        own: false,
        cpu_f16_reference: false,
        stream_cpu: false,
        fused: false,
        ov_experts: false,
    };
    let open = |index: u32, count: u32| {
        let mut b = BankBuilder::new(index, count, flags, None);
        for li in 0..m.num_layers {
            if m.is_dense(li) {
                b.add_dense();
                continue;
            }
            let files = shard_files(&m, li, index, count).unwrap();
            let facts: Vec<ExpertFacts> = files
                .iter()
                .map(|f| ExpertFacts {
                    id: f.0,
                    mapped_len: None,
                    owned_bytes: 0,
                })
                .collect();
            assert!(b.add_experts(&facts).is_ok());
        }
        let Ok((bank, None)) = b.finish(&m, None) else {
            panic!("a bank without fused models");
        };
        bank
    };
    // five experts, one of them shared, on three workers
    let banks: Vec<_> = (0..3).map(|i| open(i, 3)).collect();
    assert_eq!(banks[0].owned_ids(1), vec![0, 3]);
    assert_eq!(banks[1].owned_ids(2), vec![1, 4]);
    assert_eq!(banks[2].owned_ids(1), vec![2]);
    assert!(banks.iter().all(|b| b.owned_ids(0).is_empty()));
    for id in 0..5 {
        let holders = banks.iter().filter(|b| b.owned_ids(1).contains(&id));
        assert_eq!(holders.count(), 1);
    }
}
