//! The layer stack, the experts' bytes, the wire and the prefix store.
use cascadia_engine_sparse_moe::inkling::gate::GateOut;
use cascadia_engine_sparse_moe::inkling::moe_block::{plan_block, scatter_visits};
use cascadia_engine_sparse_moe::k3::attn::{MlaDims, MlaKv};
use cascadia_engine_sparse_moe::k3::expert_fp4::{expert_bytes, section_bytes};
use cascadia_engine_sparse_moe::k3::kda::{conv_taps, roll_window};
use cascadia_engine_sparse_moe::k3::loader::{
    experts_path, first_missing, layer_tensors, shell_path, K3LoadError, K3Manifest,
};
use cascadia_engine_sparse_moe::k3::model::{
    blocks_at, enter_rows, max_blocks, KdaDims, KdaState, LayerState, Residual,
};
use cascadia_engine_sparse_moe::k3::moe::{
    batch_visits, distinct_experts, expert_input, gather_rows, on_unless_zero, section_ends,
    shared_width, MmapExperts, ExpertSource, FlatExperts, MoeDims,
};
use cascadia_engine_sparse_moe::k3::prefix_store::{PrefixStore, PREFIX_CACHE_FRACTION};
use cascadia_engine_sparse_moe::k3::prof::{self, Prof};
use cascadia_engine_sparse_moe::k3::residency::UsageStats;
use cascadia_engine_sparse_moe::k3::stage::{
    join_rows, layer_reserve, pin_plan, split_rows, K3Runner,
};

#[test]
fn block_counts_match_the_reference_schedule() {
    // boundaries at 0, 12, 24, ... -> ceil(i / 12) live slots at layer i
    assert_eq!(blocks_at(0, 12), 0);
    assert_eq!(blocks_at(1, 12), 1);
    assert_eq!(blocks_at(12, 12), 1);
    assert_eq!(blocks_at(13, 12), 2);
    assert_eq!(blocks_at(93, 12), 8);
    // the real model: 93 layers, block 12 -> 8 slots on the wire
    assert_eq!(max_blocks(93, 12), 8);
    // the tiny model: 6 layers, block 2 -> 3 slots
    assert_eq!(max_blocks(6, 2), 3);
}

#[test]
fn wire_width_is_one_plus_max_blocks() {
    let (h, n, bs) = (7168usize, 93usize, 12usize);
    assert_eq!((1 + max_blocks(n, bs)) * h, 9 * 7168);
}

#[test]
fn a_slice_of_layers_hands_on_the_blocks_of_the_next() {
    let (h, bs, n) = (2usize, 3usize, 8usize);
    let maxb = max_blocks(n, bs);
    let mut r = Residual {
        prefix: vec![1, 2],
        blocks: vec![0; maxb * h],
        nb: blocks_at(0, bs),
    };
    for layer in 0..n {
        assert_eq!(r.nb, blocks_at(layer, bs));
        assert_eq!(r.mixes(), layer > 0);
        let stamp = vec![10 * layer as u32, 10 * layer as u32 + 1];
        let carry = r.enter(layer, bs, h, maxb);
        assert_eq!(carry, layer % bs != 0);
        r.attention_done(carry, vec![7, 7], stamp.clone());
        if carry {
            assert_eq!(r.prefix, stamp);
        } else {
            assert_eq!(r.prefix, vec![7, 7]);
        }
        r.ffn_done(vec![100 + layer as u32, 100 + layer as u32]);
    }
    assert_eq!(r.nb, blocks_at(n, bs));
    // each block is the prefix as it stood on entry to its boundary layer
    assert_eq!(r.blocks, vec![1, 2, 102, 102, 105, 105]);
    assert_eq!(r.live(h, maxb).len(), 6);
}

#[test]
fn a_batch_pushes_every_row_like_a_token() {
    let (h, maxb, rows) = (2usize, 3usize, 2usize);
    let prefix = vec![1, 2, 3, 4];
    let mut blocks: Vec<u32> = (50..50 + (rows * maxb * h) as u32).collect();
    let (carry, nb) = enter_rows(&prefix, &mut blocks, rows, h, maxb, 1, 6, 3);
    assert!(!carry);
    assert_eq!(nb, 2);
    assert_eq!(blocks, vec![50, 51, 1, 2, 54, 55, 56, 57, 3, 4, 60, 61]);
    let before = blocks.clone();
    assert_eq!(
        enter_rows(&prefix, &mut blocks, rows, h, maxb, 2, 7, 3),
        (true, 2)
    );
    assert_eq!(blocks, before);
}

fn dims() -> MoeDims {
    MoeDims {
        layer: 0,
        hidden: 8,
        latent: 32,
        inter: 32,
        n_experts: 4,
        top_k: 2,
        n_shared: 1,
        scale: 1.0f32.to_bits(),
        renormalize: true,
        situ_beta: 4.0f32.to_bits(),
        situ_linear_beta: Some(25.0f32.to_bits()),
        eps: 1e-5f32.to_bits(),
        use_norm: true,
    }
}

fn experts(d: MoeDims) -> FlatExperts {
    let stride = expert_bytes(d.latent, d.inter);
    let mut data = vec![0u8; stride * d.n_experts];
    for (i, b) in data.iter_mut().enumerate() {
        *b = (i * 31 % 251) as u8;
    }
    FlatExperts { data, stride }
}

fn gate(ids: &[usize]) -> GateOut {
    GateOut {
        idx: ids.to_vec(),
        w: vec![1.0f32.to_bits(); ids.len()],
        gammas: vec![],
    }
}

#[test]
fn explicit_read_matches_the_mapping_byte_for_byte() {
    let stride = 4096usize;
    let n = 5usize;
    let data: Vec<u8> = (0..stride * n).map(|i| (i * 31 % 251) as u8).collect();
    let file = match MmapExperts::open(data.len(), stride, n) {
        Ok(f) => f,
        Err(_) => panic!("size"),
    };
    let ex = FlatExperts {
        data: data.clone(),
        stride,
    };
    for e in 0..n {
        let (at, len) = file.place(e).expect("read");
        assert_eq!(
            &data[at..at + len],
            ex.expert_bytes(e),
            "expert {e} differs from the map"
        );
    }
    // out of range is reported, not panicked, matching the other accessors
    assert!(file.place(n).is_none());
    assert!(file.place(usize::MAX).is_none());

    // the batch keeps its order and leaves out what the file does not hold
    let batch = file.reads(&[3, 0, 99], true);
    assert_eq!(batch.len(), 3);
    assert_eq!(batch[0], Some((3 * stride, stride)));
    assert_eq!(batch[1], Some((0, stride)));
    assert!(batch[2].is_none(), "out-of-range slot must be None");
    assert_eq!(file.reads(&[3, 0], false), vec![None, None]);
    assert_eq!(
        (file.len(), file.bytes(), file.is_empty()),
        (5, 5 * 4096, false)
    );
    match MmapExperts::open(stride * n - 1, stride, n) {
        Ok(_) => panic!("a short file was taken"),
        Err(e) => assert_eq!((e.expected, e.got), (20480, 20479)),
    }
}

#[test]
fn prefetch_is_bounds_checked_and_never_panics() {
    let stride = 64usize;
    let ex = match MmapExperts::open(stride * 4, stride, 4) {
        Ok(f) => f,
        Err(_) => panic!("size"),
    };
    assert!(ex.place(0).is_some());
    assert!(ex.place(3).is_some());
    assert!(ex.place(4).is_none(), "out-of-range must report false");
    assert!(ex.place(usize::MAX).is_none());
    assert_eq!(ex.prefetch_expert(5000, 1, 4096), Some((4096, 4096)));
    assert_eq!(ex.prefetch_expert(5000, 4, 4096), None);
    assert_eq!(ex.pin_expert(5000, 1), Some((5064, 64)));
    assert_eq!(ex.pin_expert(5000, 4), None);
    // a bad id in the middle of a list is passed over
    assert_eq!(ex.hints(&[0, 99, 2], true), vec![(0, 64), (128, 64)]);
    assert_eq!(ex.hints(&[0, 2], false), vec![]);
    assert!(on_unless_zero(None) && on_unless_zero(Some("1")) && !on_unless_zero(Some("0")));
}

/// Serves every requested expert from a buffer.
struct AlwaysBuffered {
    inner: FlatExperts,
}

impl ExpertSource for AlwaysBuffered {
    fn expert_bytes(&self, expert: usize) -> &[u8] {
        self.inner.expert_bytes(expert)
    }
    fn stride(&self) -> usize {
        self.inner.stride()
    }
    fn read_batch(&self, experts: &[u32]) -> Vec<Option<Vec<u8>>> {
        experts
            .iter()
            .map(|&e| Some(self.inner.expert_bytes(e as usize).to_vec()))
            .collect()
    }
}

#[test]
fn batch_prefill_reads_line_up_with_the_experts_that_asked_for_them() {
    let d = dims();
    let gates = vec![gate(&[3, 1]), gate(&[1, 3]), gate(&[3, 0])];
    let plan = plan_block(&gates, d.n_experts, 0, d.top_k);
    let ids = distinct_experts(&plan);
    assert_eq!(ids, vec![0, 1, 3]);
    let mapped = experts(d);
    let buffered = AlwaysBuffered { inner: experts(d) };
    let some = buffered.read_batch(&ids);
    let none = mapped.read_batch(&ids);
    assert!(none.iter().all(|b| b.is_none()));
    for v in batch_visits(&plan, d.top_k) {
        assert_eq!(ids[v.buffer], v.expert);
        let want = mapped.expert_bytes(v.expert as usize);
        assert_eq!(expert_input(&mapped, &ids, &none, v.buffer), want);
        assert_eq!(expert_input(&buffered, &ids, &some, v.buffer), want);
    }
    mapped.prefetch(&ids);
    assert_eq!(mapped.stride(), expert_bytes(32, 32));
}

#[test]
fn batch_union_loads_each_expert_once_and_matches_per_token() {
    let d = dims();
    let rows = 8usize;
    let gates: Vec<GateOut> = (0..rows).map(|r| gate(&[r % 4, (r + 1) % 4])).collect();
    let plan = plan_block(&gates, d.n_experts, 0, d.top_k);
    let lat: Vec<u32> = (0..(rows * d.latent) as u32).collect();
    let mut hits = vec![0usize; d.n_experts];
    let mut visits = Vec::new();
    for v in batch_visits(&plan, d.top_k) {
        hits[v.expert as usize] += 1;
        let x = gather_rows(&lat, d.latent, &v.rows);
        // a stand-in for the expert: its id times a large number, added to every input
        let y: Vec<u32> = x.iter().map(|a| a + 1_000_000 * v.expert).collect();
        visits.push((v.expert as usize, y));
    }
    assert!(
        hits.iter().all(|&h| h <= 1),
        "an expert was fetched more than once: {hits:?}"
    );
    let touched = hits.iter().filter(|&&h| h > 0).count();
    assert!(touched <= d.n_experts && touched < rows * d.top_k);
    let slots = scatter_visits(&visits, &plan.occ, rows * d.top_k, d.latent);
    for r in 0..rows {
        for k in 0..d.top_k {
            let base = (r * d.top_k + k) * d.latent;
            for c in 0..d.latent {
                let want = lat[r * d.latent + c] + 1_000_000 * gates[r].idx[k] as u32;
                assert_eq!(slots[base + c], want);
            }
        }
    }
}

#[test]
fn lowering_top_k_fetches_fewer_experts() {
    let d = dims();
    assert!(d.top_k > 1, "test needs room to lower top_k");
    let rows = 4usize;
    let full: Vec<GateOut> = (0..rows).map(|r| gate(&[r % 2, 2 + r % 2])).collect();
    let low: Vec<GateOut> = (0..rows).map(|r| gate(&[r % 2])).collect();
    let wide = distinct_experts(&plan_block(&full, d.n_experts, 0, d.top_k));
    let narrow = distinct_experts(&plan_block(&low, d.n_experts, 0, d.top_k - 1));
    assert!(narrow.iter().all(|e| wide.contains(e)));
    assert!(narrow.len() < wide.len());
}

#[test]
fn sections_lie_back_to_back() {
    let (gate_end, up_end, whole) = section_ends(3072, 3584);
    assert_eq!(gate_end, section_bytes(3072, 3584));
    assert_eq!(up_end, 2 * gate_end);
    assert_eq!(whole, up_end + section_bytes(3584, 3072));
    assert_eq!(shared_width(&dims()), 32);
}

fn mla() -> MlaDims {
    MlaDims {
        hidden: 8,
        heads: 2,
        q_lora_rank: 4,
        kv_lora_rank: 4,
        qk_nope: 2,
        qk_rope: 2,
        v_head: 2,
        eps: 1e-5f32.to_bits(),
    }
}

#[test]
fn cache_grows_one_latent_row_per_step() {
    let d = mla();
    let mut kv = MlaKv::new();
    for step in 1..=3 {
        let row: Vec<u32> = (0..d.latent_per_token() as u32).map(|i| i + step).collect();
        kv.append(&row);
        assert_eq!(kv.len(), step as usize);
        assert_eq!(kv.latent.len(), step as usize * d.latent_per_token());
    }
    assert_eq!(kv.row(1, 6), [2, 3, 4, 5, 6, 7]);
    assert_eq!(d.qk_head(), 4);
}

#[test]
fn reset_clears_the_cache() {
    let mut kv = MlaKv::new();
    kv.append(&[1, 2, 3]);
    let first = kv.latent.clone();
    kv.clear();
    assert!(kv.is_empty());
    kv.append(&[1, 2, 3]);
    assert_eq!(
        kv.latent, first,
        "post-reset step must match a fresh sequence"
    );
    assert_eq!(kv.len(), 1);
}

#[test]
fn weight_rows_of_a_head_are_keys_then_values() {
    let d = mla();
    let mut seen = vec![false; d.heads * (d.qk_nope + d.v_head)];
    for h in 0..d.heads {
        for i in 0..d.qk_nope {
            seen[d.key_row(h, i)] = true;
        }
        for i in 0..d.v_head {
            seen[d.value_row(h, i)] = true;
        }
    }
    assert!(seen.iter().all(|&s| s));
    assert_eq!((d.key_row(1, 0), d.value_row(1, 1)), (4, 7));
}

#[test]
fn conv_state_roundtrip_matches_single_pass() {
    // Splitting a sequence and carrying the window must equal one pass.
    let (d, k) = (3usize, 4usize);
    let t = 7usize;
    let x: Vec<u32> = (0..t * d)
        .map(|i| ((i as f32) * 0.37).sin().to_bits())
        .collect();
    let w: Vec<f32> = (0..d * k).map(|i| (i as f32 * 0.11).cos()).collect();
    let conv = |x: &[u32], st: &mut Vec<u32>| -> Vec<f32> {
        let mut out = Vec::new();
        for pos in 0..x.len() / d {
            for c in 0..d {
                let taps = conv_taps(x, st, d, k, pos, c);
                let acc: f32 = taps
                    .iter()
                    .enumerate()
                    .map(|(j, &v)| f32::from_bits(v) * w[c * k + j])
                    .sum();
                out.push(acc * (1.0 / (1.0 + (-acc).exp())));
            }
        }
        roll_window(x, st, d, k);
        out
    };

    let mut st_a = vec![0u32; d * (k - 1)];
    let all = conv(&x, &mut st_a);

    let mut st_b = vec![0u32; d * (k - 1)];
    let p1 = conv(&x[..4 * d], &mut st_b);
    let p2 = conv(&x[4 * d..], &mut st_b);

    for i in 0..4 * d {
        assert!((all[i] - p1[i]).abs() < 1e-6, "head mismatch at {i}");
    }
    for i in 0..3 * d {
        assert!(
            (all[4 * d + i] - p2[i]).abs() < 1e-6,
            "tail mismatch at {i}"
        );
    }
    assert_eq!(st_a, st_b);
    assert_eq!(st_a[..3], [x[4 * 3], x[5 * 3], x[6 * 3]]);
}

fn kda_state() -> LayerState {
    LayerState::Kda(KdaState {
        recurrent: vec![0; 4096],
        conv_q: vec![0; 256],
        conv_k: vec![0; 256],
        conv_v: vec![0; 256],
    })
}

#[test]
fn states_start_at_zero_and_report_their_bytes() {
    let d = KdaDims {
        hidden: 8,
        heads: 2,
        head_dim: 3,
        conv_size: 4,
        gate_lower_bound: None,
        eps: 0,
    };
    let mut s = KdaState::new(d);
    assert_eq!((s.recurrent.len(), s.conv_q.len()), (18, 18));
    s.conv_v[2] = 9;
    s.recurrent[1] = 4;
    s.clear();
    assert!(s.conv_v.iter().chain(s.recurrent.iter()).all(|&v| v == 0));
    assert_eq!(LayerState::Kda(s).approx_bytes(), 4 * (18 + 3 * 18));
    let mut kv = MlaKv::new();
    kv.append(&[1, 2, 3, 4, 5]);
    assert_eq!(LayerState::Mla(kv).approx_bytes(), 20);
}

#[test]
fn an_explicit_budget_wins_over_the_derived_one() {
    let derived = PrefixStore::budget_from(None, None, 8_000_000_000);
    assert!(
        derived > 0,
        "a machine running tests has free RAM; deriving 0 would leave the \
         cache off everywhere by accident"
    );
    assert_eq!(derived, (8_000_000_000f64 * 0.05) as usize);
    assert_eq!(PrefixStore::budget_from(Some(9), Some("7"), 1), 9);
    assert_eq!(PrefixStore::budget_from(None, Some(" 7 "), 1), 7);
    assert_eq!(PrefixStore::budget_from(None, Some("seven"), 1 << 40), 0);

    let store = PrefixStore::new(0);
    assert!(!store.enabled(), "0 must disable the cache outright");
}

#[test]
fn a_budget_smaller_than_one_entry_declines_without_copying() {
    let mut store = PrefixStore::new(1);
    let states = vec![kda_state()];
    let before = store.bytes;
    store.put(7, &states, 1);
    assert!(
        store.entries.is_empty(),
        "an oversized entry must not be kept"
    );
    assert_eq!(store.bytes, before, "declining must not charge the budget");
    assert!(store.get(7).is_none());
}

#[test]
fn the_derived_share_leaves_most_of_ram_to_the_page_cache() {
    let fraction = PREFIX_CACHE_FRACTION as f64 / 144115188075855872.0;
    assert!(
        fraction > 0.0 && fraction <= 0.10,
        "fraction {fraction} is outside the measured-safe range"
    );
    assert_eq!(fraction, 0.05);
}

#[test]
fn the_oldest_snapshot_makes_room_and_a_hit_does_not_refresh() {
    let one = 4 * (4096 + 3 * 256);
    let mut store = PrefixStore::new(2 * one);
    store.put(1, &[kda_state()], 10);
    store.put(2, &[kda_state()], 20);
    assert_eq!(store.get(1).map(|e| e.1), Some(10));
    store.put(3, &[kda_state()], 30);
    assert!(store.get(1).is_none(), "the oldest leaves though it was just read");
    assert_eq!(store.get(2).map(|e| e.1), Some(20));
    assert_eq!(store.get(3).map(|e| (e.0.len(), e.1)), Some((1, 30)));
    assert_eq!(store.bytes, 2 * one);
    store.put(2, &[kda_state()], 99);
    assert_eq!(store.get(2).map(|e| e.1), Some(20), "a key is not replaced");
}

fn manifest() -> K3Manifest {
    K3Manifest {
        arch: "kimi_k3".to_string(),
        hidden_size: 2,
        num_hidden_layers: 6,
        first_k_dense_replace: 1,
        attn_res_block_size: 2,
        kda_layers: vec![0, 1, 2, 4, 5],
        rms_norm_eps: 1e-5f32.to_bits(),
        situ_beta: 0,
        situ_linear_beta: None,
        num_heads: 1,
        head_dim: 2,
        conv_size: 2,
        gate_lower_bound: None,
        num_attention_heads: Some(3),
        q_lora_rank: 4,
        kv_lora_rank: 4,
        qk_nope_head_dim: 2,
        qk_rope_head_dim: 2,
        v_head_dim: 2,
        num_experts: 4,
        top_k: 3,
        num_shared_experts: 1,
        routed_expert_hidden_size: 32,
        moe_intermediate_size: 32,
        latent_moe_use_norm: true,
        routed_scaling_factor: 1.0f32.to_bits(),
        moe_renormalize: true,
        intermediate_size: 64,
        vocab_size: 10,
        eos_token_ids: vec![],
    }
}

#[test]
fn a_manifest_of_another_family_is_refused() {
    let mut m = manifest();
    assert!(m.check().is_ok());
    m.arch = "other".to_string();
    match m.check() {
        Err(K3LoadError::Manifest(a)) => assert_eq!(a, "other"),
        _ => panic!("taken"),
    }
}

#[test]
fn a_manifest_gives_kinds_shapes_and_files() {
    let m = manifest();
    assert!(m.is_kda(0) && !m.is_kda(3));
    assert!(!m.is_moe(0) && m.is_moe(1));
    assert_eq!(m.attn_heads(), 3);
    assert_eq!(m.mla_dims().heads, 3);
    assert_eq!(m.kda_dims().heads, 1);
    assert_eq!(m.dims().block_size, 2);
    assert_eq!(m.moe_dims(4).layer, 4);
    assert_eq!(m.stop_tokens(), vec![0]);
    assert_eq!(shell_path(7), "shells/layer_07.safetensors");
    assert_eq!(shell_path(123), "shells/layer_123.safetensors");
    assert_eq!(experts_path(12), "experts/layer_12.bin");
    assert!(m.expert_file(4 * 1632).is_ok());
    assert!(m.expert_file(3 * 1632).is_err());
}

#[test]
fn a_width_override_only_lowers() {
    assert_eq!(K3Manifest::effective_top_k(16, None), 16);
    assert_eq!(K3Manifest::effective_top_k(16, Some(8)), 8);
    assert_eq!(K3Manifest::effective_top_k(16, Some(99)), 16);
    assert_eq!(K3Manifest::effective_top_k(16, Some(0)), 1);
}

#[test]
fn the_tensors_of_a_layer_follow_its_kind() {
    let m = manifest();
    let dense = layer_tensors(&m, 0);
    assert_eq!(dense.len(), 14 + 3 + 6);
    assert_eq!((dense[0].name, dense[0].narrow), ("attn.q_proj", true));
    assert_eq!((dense[14].name, dense[14].narrow), ("w1", true));
    let full = layer_tensors(&m, 3);
    assert_eq!(full.len(), 8 + 8 + 6);
    assert_eq!((full[1].name, full[1].narrow), ("attn.q_a_layernorm", false));
    assert_eq!(full[21].name, "mlp_res_norm");
    let mut found = vec![true; 22];
    assert!(first_missing(&full, &found, "no".to_string()).is_ok());
    found[5] = false;
    found[9] = false;
    match first_missing(&full, &found, "no".to_string()) {
        Err(K3LoadError::Tensor(n, why)) => {
            assert_eq!((n.as_str(), why.as_str()), ("attn.kv_b_proj", "no"))
        }
        _ => panic!("taken"),
    }
}

#[test]
fn a_stage_owns_its_slice_and_agrees_on_one_width() {
    let r = K3Runner::load(manifest(), 1, 2, 4096, Some(2), 0);
    assert_eq!((r.lo, r.states.len()), (3, 3));
    assert_eq!((r.first, r.last), (false, true));
    assert_eq!(r.top_k(), 2);
    assert_eq!(r.hidden_size(), (1 + 3) * 2);
    assert!(matches!(r.states[0], LayerState::Mla(_)));
    assert!(matches!(r.states[1], LayerState::Kda(_)));
    for (i, s) in r.states.iter().enumerate() {
        assert_eq!(s.approx_bytes(), r.m.fresh_state(r.lo + i).approx_bytes());
    }
    let mut first = K3Runner::load(manifest(), 0, 2, 4096, None, 0);
    assert_eq!(first.widths, vec![None, Some(3), Some(3)]);
    assert_eq!(first.set_top_k(1), 1);
    assert_eq!(first.widths, vec![None, Some(1), Some(1)]);
    assert_eq!(first.top_k(), 1);
    assert_eq!(first.set_top_k(50), 3);
    assert_eq!(first.set_top_k((1usize << 32) + 1), 3);
    assert_eq!(first.set_top_k(0), 1);
    assert_eq!(first.set_top_k(50), 3);
    assert!(first.first && !first.last);
    assert!(!first.saves_usage(false) && first.saves_usage(true));
    assert_eq!(first.pinned_experts(), 0);
}

#[test]
fn a_token_travels_on_the_wire() {
    let mut r = K3Runner::load(manifest(), 1, 2, 64, None, 0);
    let embed: Vec<u32> = (0..20).collect();
    let w = r.embed_token(&embed, 4);
    assert_eq!(w, vec![8, 9, 0, 0, 0, 0, 0, 0]);
    let pair = r.open_wire(&w);
    assert_eq!(r.covered_positions(), Some(1));
    assert_eq!(pair.nb, blocks_at(3, 2));
    assert_eq!((pair.prefix.len(), pair.blocks.len()), (2, 6));
    assert_eq!(r.close_wire(&pair), w);
    assert_eq!(r.head_input(&w).nb, 3);
    let batch: Vec<u32> = (0..24).collect();
    let (p, b, nb) = r.open_batch(&batch, 3);
    assert_eq!(p, vec![0, 1, 8, 9, 16, 17]);
    assert_eq!(&b[..7], &[2, 3, 4, 5, 6, 7, 10]);
    assert_eq!(nb, 2);
    assert_eq!(r.covered_positions(), Some(4));
    assert_eq!(r.close_batch(&p, &b, 3), batch);
    let (p, b) = split_rows(&batch, 2, 5, 7);
    assert_eq!(join_rows(&p, &b, 2, 5, 7), batch);
}

#[test]
fn a_cached_prefix_comes_back_with_its_position() {
    let mut prof = Prof::new(true);
    let mut r = K3Runner::load(manifest(), 0, 1, 64, None, 10_000);
    assert!(r.prefix_cache_enabled());
    r.cache_prefix(5);
    assert!(r.prefix.entries.is_empty(), "nothing before the first token");
    let wire = vec![0; r.hidden_size()];
    for _ in 0..3 {
        r.open_wire(&wire);
    }
    if let LayerState::Kda(s) = &mut r.states[0] {
        s.recurrent[1] = 77;
    }
    r.cache_prefix(5);
    r.reset(&mut prof);
    assert_eq!(r.covered_positions(), Some(0));
    match &r.states[0] {
        LayerState::Kda(s) => assert_eq!(s.recurrent[1], 0),
        LayerState::Mla(_) => panic!("kind"),
    }
    assert_eq!(r.restore_prefix(6, &mut prof), None);
    assert_eq!(r.restore_prefix(5, &mut prof), Some(3));
    assert_eq!(r.covered_positions(), Some(3));
    match &r.states[0] {
        LayerState::Kda(s) => assert_eq!(s.recurrent[1], 77),
        LayerState::Mla(_) => panic!("kind"),
    }
    assert_eq!(prof::prefix_stats(&prof), (1, 3));
}

#[test]
fn the_pin_budget_is_spread_over_the_routing_layers() {
    let mut u = UsageStats::new();
    for (layer, expert, n) in [(3u32, 1u32, 5), (3, 2, 9), (3, 0, 1), (4, 7, 2)] {
        for _ in 0..n {
            u.record(layer, expert);
        }
    }
    let widths = vec![None, Some(2), Some(2)];
    let plan = pin_plan(&u, 2, &widths, 5);
    assert_eq!(plan.len(), 2);
    assert_eq!((plan[0].layer, plan[0].experts.clone()), (3, vec![2, 1]));
    assert_eq!((plan[1].layer, plan[1].experts.clone()), (4, vec![7]));
    assert!(pin_plan(&u, 2, &widths, 1).is_empty());
    assert!(pin_plan(&UsageStats::new(), 2, &widths, 5).is_empty());
    assert_eq!(layer_reserve(3), 3_600_000_000);
}
