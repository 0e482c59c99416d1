//! The measurements: dead lanes, gate predictions, the decode profile and the packed
//! number format.
use cascadia_engine_sparse_moe::k3::expert_fp4::{
    decode_nibble, dequant_section, doubled_nibble, e8m0_to_f32, expert_bytes, row_places,
    section_bytes,
    weight_at, GROUP,
};
use cascadia_engine_sparse_moe::k3::{chess_probe, gate_probe, knobs, prof};

const INTER: usize = 3072;
const LATENT: usize = 3584;

fn bits(v: &[f32]) -> Vec<u32> {
    v.iter().map(|x| x.to_bits()).collect()
}

#[test]
fn thresholds_start_lossless_and_ascend() {
    let t = chess_probe::thresholds();
    assert_eq!(f32::from_bits(t[0]), 0.0);
    assert!(t
        .windows(2)
        .all(|w| f32::from_bits(w[0]) < f32::from_bits(w[1])));
    let p = chess_probe::ChessProbe::new(false);
    assert_eq!(p.dead_lanes.len(), t.len());
    assert_eq!(p.dead_pages.len(), t.len());
    assert_eq!(t[1], 1e-3f32.to_bits());
    assert_eq!(t[2], 1e-2f32.to_bits());
    assert_eq!(t[3], 1e-1f32.to_bits());
}

#[test]
fn lane_ranges_match_the_packed_section_layout() {
    let [(n0, nl), (s0, sl)] = chess_probe::lane_ranges(0, INTER, LATENT);
    assert_eq!((n0, nl), (0, LATENT / 2), "nibble row stride is latent/2");
    assert_eq!(s0, INTER * LATENT / 2, "scales follow every nibble byte");
    assert_eq!(sl, LATENT / GROUP);

    let [(n1, _), (s1, _)] = chess_probe::lane_ranges(1, INTER, LATENT);
    assert_eq!(n1 - n0, LATENT / 2);
    assert_eq!(s1 - s0, LATENT / GROUP);

    // and the last lane must land inside the section, not past it
    let [_, (last, len)] = chess_probe::lane_ranges(INTER - 1, INTER, LATENT);
    assert_eq!(last + len, section_bytes(INTER, LATENT));
}

#[test]
fn scattered_dead_lanes_free_no_pages() {
    let dead: Vec<bool> = (0..INTER).map(|l| l % 2 == 0).collect();
    let (d, total) = chess_probe::dead_pages(&dead, INTER, LATENT);
    assert!(total > 0);
    assert_eq!(d, 0, "alternating dead lanes must save nothing");
}

#[test]
fn contiguous_dead_lanes_free_pages() {
    let dead: Vec<bool> = (0..INTER).map(|l| l >= INTER / 2).collect();
    let (d, total) = chess_probe::dead_pages(&dead, INTER, LATENT);
    assert!(
        d > 0,
        "a contiguous dead half must clear pages: {d} of {total}"
    );
    assert!(d <= total / 2, "{d} of {total} exceeds the dead-lane share");
    assert_eq!(d, total / 2, "page-aligned run should give the full half");
}

#[test]
fn all_lanes_dead_frees_every_page_and_none_dead_frees_none() {
    let (all, total) = chess_probe::dead_pages(&vec![true; INTER], INTER, LATENT);
    assert_eq!(all, total, "an entirely dead section is entirely skippable");
    let (none, _) = chess_probe::dead_pages(&vec![false; INTER], INTER, LATENT);
    assert_eq!(none, 0);
}

#[test]
fn dead_mask_is_inclusive_and_sign_blind() {
    let g = bits(&[0.0f32, -0.5, 0.01, -0.01, 2.0]);
    assert_eq!(
        chess_probe::dead_mask(&g, 0.0f32.to_bits()),
        [true, false, false, false, false]
    );
    assert_eq!(
        chess_probe::dead_mask(&g, 0.01f32.to_bits()),
        [true, false, true, true, false]
    );
    assert_eq!(
        chess_probe::dead_mask(&g, 1.0f32.to_bits()),
        [true, true, true, true, false]
    );
}

#[test]
fn chess_probe_disabled_probe_records_nothing_and_reports_nothing() {
    let mut p = chess_probe::ChessProbe::new(false);
    assert!(!chess_probe::enabled(&p));
    chess_probe::observe(&mut p, &vec![0u32; 32], 32, 32);
    assert_eq!(p.total_lanes, 0);
    assert!(chess_probe::report(&p).is_none());
}

#[test]
fn an_enabled_probe_counts_lanes_and_pages_at_every_level() {
    let mut p = chess_probe::ChessProbe::new(true);
    assert!(chess_probe::report(&p).is_none());
    let mut g = vec![0.0f32; 32];
    g[3] = 0.05;
    chess_probe::observe(&mut p, &bits(&g), 32, 32);
    let r = chess_probe::report(&p).unwrap();
    assert_eq!(r.lanes, 32);
    assert_eq!(r.dead_lanes, [31, 31, 31, 32]);
    // 32 x 32 packs into one page, which is clear only when every lane is dead
    assert_eq!(r.pages, 1);
    assert_eq!(r.dead_pages, [0, 0, 0, 1]);
}

#[test]
fn nibble_grid_and_sign() {
    let f = |n: u8| f32::from_bits(decode_nibble(n));
    assert_eq!(f(0x00), 0.0);
    assert_eq!(f(0x07), 6.0);
    assert_eq!(f(0x0F), -6.0);
    assert_eq!(f(0x02), 1.0);
    assert_eq!(f(0x0A), -1.0);
}

#[test]
fn every_nibble_is_half_its_doubled_value() {
    for n in 0..16u8 {
        assert_eq!(
            f32::from_bits(decode_nibble(n)),
            f32::from(doubled_nibble(n)) / 2.0
        );
    }
}

#[test]
fn e8m0_unit_scale() {
    let f = |b: u8| f32::from_bits(e8m0_to_f32(b));
    assert_eq!(f(127), 1.0);
    assert_eq!(f(128), 2.0);
    assert_eq!(f(126), 0.5);
}

#[test]
fn section_sizes_match_the_exporter() {
    // 32x32 -> 512 nibble bytes + 32 scale bytes
    assert_eq!(section_bytes(32, 32), 544);
    // the tiny export writes 3 * 544 = 1632 bytes per expert
    assert_eq!(expert_bytes(32, 32), 1632);
}

#[test]
fn gemv_matches_explicit_dequant() {
    let (out_dim, in_dim) = (4usize, 64usize);
    let mut data = vec![0u8; section_bytes(out_dim, in_dim)];
    for (i, b) in data.iter_mut().enumerate() {
        *b = (i * 37 % 251) as u8;
    }
    let nib = out_dim * in_dim / 2;
    for b in data[nib..].iter_mut() {
        *b = 127 - (*b % 3);
    }
    let w = dequant_section(&data, out_dim, in_dim);
    assert_eq!(w.len(), out_dim * in_dim);
    let x: Vec<f32> = (0..in_dim).map(|i| (i as f32 * 0.13).sin()).collect();
    for o in 0..out_dim {
        // one row by explicit weights, one by reading each weight in place
        let value = |nibble: u8, exponent: u8| {
            f32::from_bits(decode_nibble(nibble)) * f32::from_bits(e8m0_to_f32(exponent))
        };
        let want: f32 = (0..in_dim)
            .map(|c| value(w[o * in_dim + c].nibble, w[o * in_dim + c].exponent) * x[c])
            .sum();
        let y: f32 = (0..in_dim)
            .map(|c| {
                let p = weight_at(&data, out_dim, in_dim, o, c);
                value(p.nibble, p.exponent) * x[c]
            })
            .sum();
        assert!(
            (y - want).abs() <= 1e-4 * want.abs().max(1.0),
            "row {o}: got {y} want {want}"
        );
        // the even column is the low nibble of its byte
        let byte = data[o * in_dim / 2];
        assert_eq!(w[o * in_dim].nibble, byte & 0xf);
        assert_eq!(w[o * in_dim + 1].nibble, byte >> 4);
        assert_eq!(w[o * in_dim].exponent, data[nib + o * 2]);
        assert_eq!(w[o * in_dim + 32].exponent, data[nib + o * 2 + 1]);
    }
}

#[test]
fn widths_are_ascending_and_start_at_the_real_top_k() {
    let w = gate_probe::widths();
    assert_eq!(w[0], 16);
    assert!(w.windows(2).all(|w| w[0] < w[1]));
    assert_eq!(gate_probe::GateProbe::new(false).hits.len(), w.len());
}

/// A gate whose expert `e` scores `e * hidden[0]`.
fn ramp_gate(n_experts: usize, hidden_len: usize) -> Vec<f32> {
    let mut g = vec![0.0f32; n_experts * hidden_len];
    for e in 0..n_experts {
        g[e * hidden_len] = e as f32;
    }
    g
}

fn scores(gate: &[f32], hidden: &[f32]) -> Vec<u32> {
    gate.chunks_exact(hidden.len())
        .map(|row| {
            row.iter()
                .zip(hidden)
                .map(|(&a, &b)| a * b)
                .sum::<f32>()
                .to_bits()
        })
        .collect()
}

#[test]
fn ranking_is_by_descending_score_and_stops_at_k() {
    let (n, hl) = (40usize, 4usize);
    let hidden = {
        let mut h = vec![0.0f32; hl];
        h[0] = 1.0;
        h
    };
    let ranked = gate_probe::rank_experts(&scores(&ramp_gate(n, hl), &hidden), 32);
    assert_eq!(ranked.len(), 32, "must return exactly k");
    let expect: Vec<u32> = (0..n as u32).rev().take(32).collect();
    assert_eq!(ranked, expect, "highest-scoring expert must come first");
}

#[test]
fn ranking_handles_fewer_experts_than_k() {
    let (n, hl) = (3usize, 4usize);
    let hidden = vec![1.0f32, 0.0, 0.0, 0.0];
    let ranked = gate_probe::rank_experts(&scores(&ramp_gate(n, hl), &hidden), 32);
    assert_eq!(ranked, vec![2, 1, 0]);
}

#[test]
fn hits_are_counted_per_width_against_rank_position() {
    let ranked: Vec<u32> = (0..32).collect();
    let hits = gate_probe::count_hits(&ranked, &[3, 20, 30]);
    assert_eq!(hits[0], 1, "top16 catches only expert 3");
    assert_eq!(hits[1], 1, "top20 still catches only expert 3");
    assert_eq!(hits[2], 2, "top24 adds expert 20");
    assert_eq!(hits[3], 3, "top32 adds expert 30");

    // an expert outside every width counts nowhere
    assert_eq!(gate_probe::count_hits(&ranked, &[99]), [0, 0, 0, 0]);
    // perfect prediction saturates at the selection size
    assert_eq!(gate_probe::count_hits(&ranked, &[0, 1, 2])[0], 3);
}

#[test]
fn gate_probe_disabled_probe_records_nothing_and_reports_nothing() {
    let mut p = gate_probe::GateProbe::new(false);
    assert!(!gate_probe::enabled(&p));
    gate_probe::predict(&mut p, &scores(&[1.0; 8], &[1.0; 4]));
    gate_probe::observe(&mut p, &[0, 1]);
    assert_eq!(p.total, 0);
    assert!(gate_probe::report(&p).is_none());
}

#[test]
fn an_enabled_gate_probe_scores_the_last_prediction_once() {
    let mut p = gate_probe::GateProbe::new(true);
    gate_probe::predict(&mut p, &bits(&[3.0, 1.0, 2.0]));
    gate_probe::observe(&mut p, &[0, 2]);
    let r = gate_probe::report(&p).unwrap();
    assert_eq!(r.total, 2);
    assert_eq!(r.hits, [2, 2, 2, 2]);
    gate_probe::observe(&mut p, &[1]);
    assert_eq!(gate_probe::report(&p).unwrap().total, 2, "a prediction is used once");
}

#[test]
fn disabled_hooks_are_inert() {
    assert!(!prof::enabled_by(None));
    let mut p = prof::Prof::new(false);
    let before = p.totals.ns[prof::WALL];
    prof::add(&mut p, prof::WALL, 17);
    prof::record_routing(&mut p, 0, &[1, 2, 3], 1024);
    prof::record_residency(&mut p, 1, 2);
    assert!(prof::dump(&mut p).is_none());
    assert_eq!(p.totals.ns[prof::WALL], before);
    assert_eq!(p.totals.routed_bytes, 0);
}

#[test]
fn the_profile_reports_what_was_added_since_the_last_token() {
    assert!(prof::enabled_by(Some("1")) && !prof::enabled_by(Some("0")) && !prof::enabled_by(Some("")));
    let mut p = prof::Prof::new(true);
    prof::add(&mut p, prof::WALL, 5);
    prof::record_routing(&mut p, 0, &[1, 2, 3], 1000);
    let first = prof::dump(&mut p).unwrap();
    assert_eq!(first.token, 1);
    assert_eq!(first.delta.routed_bytes, 3000);
    assert_eq!(first.delta.reused, 0);
    prof::add(&mut p, prof::WALL, 7);
    prof::record_routing(&mut p, 0, &[3, 4, 1], 1000);
    prof::record_residency(&mut p, 30, 64);
    let second = prof::dump(&mut p).unwrap();
    assert_eq!(second.delta.ns[prof::WALL], 7);
    assert_eq!(second.delta.reused, 2);
    assert_eq!((second.delta.resident, second.delta.probed), (30, 64));
    // an expert of two tokens ago is no repetition
    prof::record_routing(&mut p, 0, &[2], 1000);
    assert_eq!(prof::dump(&mut p).unwrap().delta.reused, 0);
    prof::new_sequence(&mut p);
    prof::record_routing(&mut p, 0, &[2], 1000);
    assert_eq!(prof::dump(&mut p).unwrap().delta.reused, 0);
    prof::note_prefix_hit(&mut p, 40);
    assert_eq!(prof::prefix_stats(&p), (1, 40));
}

#[test]
fn settings_are_seeded_once() {
    let mut k = knobs::Knobs::new();
    assert_eq!(knobs::get(&k), knobs::Overrides::default());
    let mut o = knobs::Overrides::default();
    o.prefix_cache_bytes = Some(7);
    knobs::seed(&mut k, o);
    let mut later = knobs::Overrides::default();
    later.prefix_cache_bytes = Some(9);
    knobs::seed(&mut k, later);
    assert_eq!(knobs::get(&k).prefix_cache_bytes, Some(7));
}

#[test]
fn a_row_of_a_section_has_its_own_nibbles_and_scales() {
    assert_eq!(row_places(0, 4, 64), ((0, 32), (128, 2)));
    assert_eq!(row_places(1, 4, 64), ((32, 32), (130, 2)));
    assert_eq!(row_places(3, 4, 64), ((96, 32), (134, 2)));
}

#[test]
fn a_profile_that_is_off_takes_anything() {
    let mut p = prof::Prof::new(false);
    p.tokens = u64::MAX;
    prof::add(&mut p, usize::MAX, 5);
    prof::record_routing(&mut p, 3, &[1, 2, 3], usize::MAX);
    prof::new_sequence(&mut p);
    prof::record_residency(&mut p, usize::MAX, 1);
    assert!(prof::dump(&mut p).is_none());
    assert_eq!((p.tokens, p.totals.routed_bytes, p.totals.resident), (u64::MAX, 0, 0));
    assert!(p.window.is_empty());
}

#[test]
fn only_a_one_turns_a_probe_on() {
    for setting in [None, Some(""), Some("0"), Some("yes"), Some(" 1")] {
        assert!(!gate_probe::enabled_by(setting) && !chess_probe::enabled_by(setting));
    }
    assert!(gate_probe::enabled_by(Some("1")) && chess_probe::enabled_by(Some("1")));
}

#[test]
fn the_lanes_split_the_section() {
    for (inter, latent) in [(3usize, 64usize), (5, 32), (1, 96), (4, 0)] {
        let mut owners = vec![0usize; section_bytes(inter, latent)];
        for lane in 0..inter {
            for (start, len) in chess_probe::lane_ranges(lane, inter, latent) {
                owners[start..start + len].iter_mut().for_each(|n| *n += 1);
            }
        }
        assert!(owners.iter().all(|&n| n == 1), "{inter} x {latent}");
    }
}
