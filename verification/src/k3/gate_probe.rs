//! Measures whether one layer's hidden state predicts the next layer's routing.
use vstd::prelude::*;

use crate::ranking::{self, top_ranked};
use crate::text::same_text;

verus! {

/// The widths: the selection's own width, and three wider ones.
pub fn widths() -> (w: [usize; 4])
    ensures
        w[0] == 16,
        w[1] == 20,
        w[2] == 24,
        w[3] == 32,
{
    [16, 20, 24, 32]
}

pub open spec fn width(i: int) -> int {
    if i == 0 {
        16
    } else if i == 1 {
        20
    } else if i == 2 {
        24
    } else {
        32
    }
}

/// The probe's state: its counters and the prediction for the next layer.
pub struct GateProbe {
    pub enabled: bool,
    /// A prediction is waiting for its layer.
    pub armed: bool,
    /// Predicted experts, best first.
    pub predicted: Vec<u32>,
    pub hits: [u64; 4],
    pub total: u64,
}

impl GateProbe {
    pub fn new(enabled: bool) -> (p: GateProbe)
        ensures
            p.enabled == enabled,
            !p.armed,
            p.predicted.len() == 0,
            p.hits@ =~= seq![0u64, 0, 0, 0],
            p.total == 0,
    {
        GateProbe { enabled, armed: false, predicted: Vec::new(), hits: [0, 0, 0, 0], total: 0 }
    }
}

/// Only the setting `1` turns the probe on.
pub fn enabled_by(setting: Option<&str>) -> (b: bool)
    ensures
        b == (setting matches Some(s) && s@ == "1"@),
{
    match setting {
        None => false,
        Some(s) => same_text(s, "1"),
    }
}

/// Whether the probe is on.
pub fn enabled(p: &GateProbe) -> (b: bool)
    ensures
        b == p.enabled,
{
    p.enabled
}

/// `r` ranks the experts by score: the `k` best, or all where there are fewer.
pub open spec fn is_ranking(scores: Seq<u32>, k: int, r: Seq<u32>) -> bool {
    &&& r.len() == if k <= scores.len() {
        k
    } else {
        scores.len() as int
    }
    &&& ranking::is_top(scores, r.len() as int, r.map_values(|e: u32| e as usize))
}

/// The `k` best experts by score, best first; equal scores by id.
pub fn rank_experts(scores: &[u32], k: usize) -> (r: Vec<u32>)
    requires
        scores.len() <= u32::MAX,
    ensures
        is_ranking(scores@, k as int, r@),
{
    let n: usize = if k <= scores.len() {
        k
    } else {
        scores.len()
    };
    let idx: Vec<usize> = top_ranked(scores, n);
    let mut r: Vec<u32> = Vec::new();
    let mut i: usize = 0;
    while i < idx.len()
        invariant
            i <= idx.len(),
            scores.len() <= u32::MAX,
            ranking::is_top(scores@, n as int, idx@),
            r.len() == i,
            forall|x: int| 0 <= x < i ==> #[trigger] r[x] == idx[x],
        decreases idx.len() - i,
    {
        r.push(idx[i] as u32);
        i += 1;
    }
    proof {
        assert(r@.map_values(|e: u32| e as usize) =~= idx@);
    }
    r
}

/// Stages the experts that a layer's input predicts for the next one, by their
/// scores there.
pub fn predict(p: &mut GateProbe, scores: &[u32])
    requires
        scores.len() <= u32::MAX,
    ensures
        !old(p).enabled ==> *final(p) == *old(p),
        old(p).enabled ==> {
            &&& is_ranking(scores@, 32, final(p).predicted@)
            &&& *final(p) == (GateProbe {
                armed: true,
                predicted: final(p).predicted,
                ..*old(p)
            })
        },
{
    if !p.enabled {
        return;
    }
    p.predicted = rank_experts(scores, 32);
    p.armed = true;
}

/// How many of `actual` stand among the first `m` of `ranked`.
pub open spec fn caught(ranked: Seq<u32>, actual: Seq<u32>, m: int) -> nat
    decreases actual.len(),
{
    if actual.len() == 0 {
        0
    } else {
        let head = ranked.take(if m <= ranked.len() {
            m
        } else {
            ranked.len() as int
        });
        caught(ranked, actual.drop_last(), m) + if head.contains(actual.last()) {
            1nat
        } else {
            0
        }
    }
}

fn caught_within(ranked: &[u32], actual: &[u32], m: usize) -> (n: u64)
    ensures
        n == caught(ranked@, actual@, m as int),
        n <= actual.len(),
{
    let stop: usize = if m <= ranked.len() {
        m
    } else {
        ranked.len()
    };
    let mut n: u64 = 0;
    let mut i: usize = 0;
    while i < actual.len()
        invariant
            i <= actual.len(),
            n <= i,
            stop <= ranked.len(),
            stop == (if m <= ranked.len() {
                m as int
            } else {
                ranked.len() as int
            }),
            n == caught(ranked@, actual@.take(i as int), m as int),
        decreases actual.len() - i,
    {
        proof {
            assert(actual@.take(i + 1).drop_last() =~= actual@.take(i as int));
        }
        let e: u32 = actual[i];
        let mut found: bool = false;
        let mut j: usize = 0;
        while j < stop
            invariant
                j <= stop <= ranked.len(),
                found == exists|x: int| 0 <= x < j && #[trigger] ranked[x] == e,
            decreases stop - j,
        {
            if ranked[j] == e {
                found = true;
            }
            j += 1;
        }
        proof {
            let head = ranked@.take(stop as int);
            assert(found == head.contains(e)) by {
                if found {
                    let x = choose|x: int| 0 <= x < stop && #[trigger] ranked[x] == e;
                    assert(head[x] == e);
                }
                if head.contains(e) {
                    let x = choose|x: int| 0 <= x < head.len() && head[x] == e;
                    assert(ranked[x] == e);
                }
            }
        }
        if found {
            n = n + 1;
        }
        i += 1;
    }
    proof {
        assert(actual@.take(actual.len() as int) =~= actual@);
    }
    n
}

/// Of each width, how many of the selected experts the prediction caught.
pub fn count_hits(ranked: &[u32], actual: &[u32]) -> (h: [u64; 4])
    ensures
        forall|i: int| 0 <= i < 4 ==> #[trigger] h@[i] == caught(ranked@, actual@, width(i)),
{
    let a: u64 = caught_within(ranked, actual, 16);
    let b: u64 = caught_within(ranked, actual, 20);
    let c: u64 = caught_within(ranked, actual, 24);
    let d: u64 = caught_within(ranked, actual, 32);
    let h: [u64; 4] = [a, b, c, d];
    assert(h@ =~= seq![a, b, c, d]);
    h
}

/// Compares a layer's selection with the prediction that was staged for it.
pub fn observe(p: &mut GateProbe, actual: &[u32])
    ensures
        final(p).enabled == old(p).enabled,
        final(p).predicted == old(p).predicted,
        !old(p).enabled || !old(p).armed ==> *final(p) == *old(p),
        old(p).enabled && old(p).armed ==> {
            &&& !final(p).armed
            &&& final(p).total == old(p).total.wrapping_add(actual.len() as u64)
            &&& forall|i: int|
                0 <= i < 4 ==> #[trigger] final(p).hits@[i] == old(p).hits@[i].wrapping_add(
                    caught(old(p).predicted@, actual@, width(i)) as u64,
                )
        },
{
    if !p.enabled || !p.armed {
        return;
    }
    p.armed = false;
    let h: [u64; 4] = count_hits(p.predicted.as_slice(), actual);
    let mut i: usize = 0;
    while i < 4
        invariant
            i <= 4,
            p.enabled == old(p).enabled,
            p.predicted == old(p).predicted,
            p.total == old(p).total,
            !p.armed,
            forall|x: int|
                0 <= x < 4 ==> #[trigger] h@[x] == caught(old(p).predicted@, actual@, width(x)),
            forall|x: int|
                0 <= x < 4 ==> #[trigger] p.hits@[x] == if x < i {
                    old(p).hits@[x].wrapping_add(
                        caught(old(p).predicted@, actual@, width(x)) as u64,
                    )
                } else {
                    old(p).hits@[x]
                },
        decreases 4 - i,
    {
        assert(h@[i as int] == caught(old(p).predicted@, actual@, width(i as int)));
        p.hits[i] = p.hits[i].wrapping_add(h[i]);
        i += 1;
    }
    p.total = p.total.wrapping_add(actual.len() as u64);
}

/// What the probe found: hits of each width out of all selections.
#[derive(Clone, Copy)]
pub struct GateReport {
    pub total: u64,
    pub hits: [u64; 4],
}

/// The probe's findings; nothing where it is off or saw nothing.
pub fn report(p: &GateProbe) -> (r: Option<GateReport>)
    ensures
        r is Some <==> p.enabled && p.total > 0,
        r matches Some(s) ==> s.total == p.total && s.hits == p.hits,
{
    if !p.enabled || p.total == 0 {
        return None;
    }
    Some(GateReport { total: p.total, hits: p.hits })
}

/// A wider prediction catches no fewer experts.
pub proof fn law_wider_catches_no_fewer(ranked: Seq<u32>, actual: Seq<u32>, m: int, w: int)
    requires
        0 <= m <= w,
    ensures
        caught(ranked, actual, m) <= caught(ranked, actual, w) <= actual.len(),
    decreases actual.len(),
{
    if actual.len() > 0 {
        law_wider_catches_no_fewer(ranked, actual.drop_last(), m, w);
        let a = ranked.take(if m <= ranked.len() {
            m
        } else {
            ranked.len() as int
        });
        let b = ranked.take(if w <= ranked.len() {
            w
        } else {
            ranked.len() as int
        });
        if a.contains(actual.last()) {
            let x = choose|x: int| 0 <= x < a.len() && a[x] == actual.last();
            assert(b[x] == actual.last());
        }
    }
}

/// Predictions are scored at 16, 20, 24 and 32 experts.
pub proof fn law_scored_widths()
    ensures
        width(0) == 16,
        width(1) == 20,
        width(2) == 24,
        width(3) == 32,
{
}

/// What a prediction of `m` experts catches: the selected ones among the first `m`
/// ranked.
pub proof fn law_caught_are_ranked_early(ranked: Seq<u32>, actual: Seq<u32>, m: int)
    requires
        0 <= m,
    ensures
        caught(ranked, actual, m) == actual.filter(
            |e: u32| exists|x: int| 0 <= x < m && x < ranked.len() && #[trigger] ranked[x] == e,
        ).len(),
    decreases actual.len(),
{
    reveal(Seq::filter);
    if actual.len() > 0 {
        law_caught_are_ranked_early(ranked, actual.drop_last(), m);
        let head = ranked.take(if m <= ranked.len() {
            m
        } else {
            ranked.len() as int
        });
        let e = actual.last();
        if head.contains(e) {
            let x = choose|x: int| 0 <= x < head.len() && head[x] == e;
            assert(ranked[x] == e);
        }
        if exists|x: int| 0 <= x < m && x < ranked.len() && #[trigger] ranked[x] == e {
            let x = choose|x: int| 0 <= x < m && x < ranked.len() && #[trigger] ranked[x] == e;
            assert(head[x] == e);
        }
    }
}

/// A ranking holds as many experts as asked for, or all, and what it leaves out scores
/// no higher: of two positive scores the greater goes first, of equal ones the lower id.
pub proof fn law_ranked_scores_are_the_greatest(
    scores: Seq<u32>,
    k: int,
    r: Seq<u32>,
    i: int,
    e: u32,
)
    requires
        is_ranking(scores, k, r),
        0 <= i < r.len(),
        e < scores.len(),
        !r.contains(e),
    ensures
        r.len() == k,
        r[i] < scores.len(),
        ({
            let a = scores[r[i] as int];
            let b = scores[e as int];
            &&& a < 0x8000_0000 && b < 0x8000_0000 ==> a > b || (a == b && r[i] < e)
            &&& a >= 0x8000_0000 && b >= 0x8000_0000 ==> a < b || (a == b && r[i] < e)
            &&& a >= 0x8000_0000 ==> b >= 0x8000_0000
        }),
{
    let m = r.map_values(|x: u32| x as usize);
    assert(m[i] == r[i] as usize);
    assert(!m.contains(e as usize)) by {
        if m.contains(e as usize) {
            let x = choose|x: int| 0 <= x < m.len() && m[x] == e as usize;
            assert(r[x] == e);
        }
    }
    ranking::law_top_keys_are_the_greatest(scores, r.len() as int, m, i, e as usize);
    if k > scores.len() {
        lemma_all_ranked(scores, m, e as usize);
    }
}

/// As many distinct ids as there are scores: none is left out.
proof fn lemma_all_ranked(scores: Seq<u32>, m: Seq<usize>, e: usize)
    requires
        ranking::is_top(scores, m.len() as int, m),
        m.len() == scores.len(),
        e < scores.len(),
    ensures
        m.contains(e),
{
    if !m.contains(e) {
        let ints = m.map_values(|x: usize| x as int);
        let all = vstd::set_lib::set_int_range(0, scores.len() as int);
        vstd::set_lib::lemma_int_range(0, scores.len() as int);
        assert(ints.no_duplicates()) by {
            assert forall|i: int, j: int| 0 <= i < ints.len() && 0 <= j < ints.len() && i
                != j implies ints[i] != ints[j] by {
                if i < j {
                    ranking::law_top_keys_descend(scores, m.len() as int, m, i, j);
                } else {
                    ranking::law_top_keys_descend(scores, m.len() as int, m, j, i);
                }
            }
        }
        ints.unique_seq_to_set();
        assert(ints.to_set().subset_of(all.remove(e as int))) by {
            assert forall|x: int| ints.to_set().contains(x) implies all.remove(
                e as int,
            ).contains(x) by {
                let i = choose|i: int| 0 <= i < ints.len() && ints[i] == x;
                assert(m[i] < scores.len());
                assert(m[i] != e);
            }
        }
        vstd::set_lib::lemma_len_subset(ints.to_set(), all.remove(e as int));
    }
}

} // verus!
