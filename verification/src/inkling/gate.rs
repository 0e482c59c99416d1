//! Routing of one token: which experts are selected, and which scores share the
//! denominator of their weights.
use vstd::prelude::*;

use crate::float_bits::{self, is_nan, NEGATIVE_INFINITY};
use crate::ranking::{self, top_ranked};

verus! {

/// One token's routing: the selected routed experts, their weights and the shared
/// experts' weights, in canonical order. Weights are single-precision bits.
pub struct GateOut {
    pub idx: Vec<usize>,
    pub w: Vec<u32>,
    pub gammas: Vec<u32>,
}

/// Selection scores with every NaN replaced by negative infinity: such a score
/// ranks last.
pub open spec fn selectable(choice: Seq<u32>) -> Seq<u32> {
    Seq::new(
        choice.len(),
        |i: int|
            if float_bits::nan(choice[i]) {
                NEGATIVE_INFINITY
            } else {
                choice[i]
            },
    )
}

/// The selected experts and the scores that make up their common denominator.
pub struct GateSelection {
    /// Selected experts: selection score descending, ties toward the lower id.
    pub idx: Vec<usize>,
    /// The selected experts' scores in that order, followed by the shared ones.
    pub terms: Vec<u32>,
}

/// The scores at these indices.
pub open spec fn picked(scores: Seq<u32>, idx: Seq<usize>) -> Seq<u32> {
    Seq::new(idx.len(), |i: int| scores[idx[i] as int])
}

/// Selects `top_k` of the routed experts by their biased score `choice`. `scores`
/// holds the raw scores of the routed experts followed by the shared ones; the
/// bias steers the selection alone.
pub fn inkling_gate(scores: &[u32], choice: &[u32], top_k: usize) -> (s: GateSelection)
    requires
        top_k <= choice.len(),
        choice.len() <= scores.len(),
    ensures
        ranking::is_top(selectable(choice@), top_k as int, s.idx@),
        s.terms@ =~= picked(scores@, s.idx@) + scores@.skip(choice.len() as int),
        s.idx.len() == top_k,
        s.terms.len() == top_k + (scores.len() - choice.len()),
        forall|i: int|
            0 <= i < top_k ==> s.idx[i] < choice.len() && (#[trigger] s.terms[i])
                == scores[s.idx[i] as int],
        forall|i: int|
            top_k <= i < s.terms.len() ==> (#[trigger] s.terms[i]) == scores[choice.len() + i
                - top_k],
{
    let mut keys: Vec<u32> = Vec::new();
    let mut i: usize = 0;
    while i < choice.len()
        invariant
            i <= choice.len(),
            keys@ =~= selectable(choice@).take(i as int),
        decreases choice.len() - i,
    {
        if is_nan(choice[i]) {
            keys.push(NEGATIVE_INFINITY);
        } else {
            keys.push(choice[i]);
        }
        i += 1;
    }
    proof {
        assert(keys@ =~= selectable(choice@));
    }
    let idx: Vec<usize> = top_ranked(keys.as_slice(), top_k);
    let mut terms: Vec<u32> = Vec::new();
    let mut j: usize = 0;
    while j < idx.len()
        invariant
            j <= idx.len(),
            choice.len() <= scores.len(),
            ranking::is_top(selectable(choice@), top_k as int, idx@),
            terms@ =~= picked(scores@, idx@).take(j as int),
        decreases idx.len() - j,
    {
        terms.push(scores[idx[j]]);
        j += 1;
    }
    let mut t: usize = choice.len();
    while t < scores.len()
        invariant
            choice.len() <= t <= scores.len(),
            terms@ =~= picked(scores@, idx@) + scores@.subrange(choice.len() as int, t as int),
        decreases scores.len() - t,
    {
        terms.push(scores[t]);
        t += 1;
    }
    GateSelection { idx, terms }
}

/// Whoever is selected scores at least as high as whoever is left out: of two
/// selection scores that are numbers the selected one is the greater value, or the two
/// have the same pattern and the selected expert has the lower id. Positive zero goes
/// before negative zero, and what is no number counts as negative infinity.
pub proof fn law_selected_scores_are_the_greatest(
    choice: Seq<u32>,
    top_k: int,
    idx: Seq<usize>,
    i: int,
    e: usize,
)
    requires
        ranking::is_top(selectable(choice), top_k, idx),
        0 <= i < idx.len(),
        e < choice.len(),
        !idx.contains(e),
    ensures
        idx.len() == top_k,
        idx[i] < choice.len(),
        idx[i] != e,
        ({
            let a = choice[idx[i] as int];
            let b = choice[e as int];
            // Two positive numbers, two negative ones, one of each.
            &&& a <= 0x7f80_0000 && b <= 0x7f80_0000 ==> a > b || (a == b && idx[i] < e)
            &&& 0x8000_0000 <= a <= 0xff80_0000 && 0x8000_0000 <= b <= 0xff80_0000 ==> a < b || (a
                == b && idx[i] < e)
            &&& 0x8000_0000 <= a && b <= 0x7f80_0000 ==> false
            // No number: as negative infinity.
            &&& 0x7f80_0000 < a < 0x8000_0000 || a >= 0xff80_0000 ==> (0x7f80_0000 < b < 0x8000_0000
                || b >= 0xff80_0000) && idx[i] < e
        }),
{
    assert(ranking::ranks_before(selectable(choice), idx[i] as int, e as int));
}

/// The selected experts stand in descending order of their scores, equal ones in
/// ascending order of their ids.
pub proof fn law_selection_descends(choice: Seq<u32>, top_k: int, idx: Seq<usize>, i: int, j: int)
    requires
        ranking::is_top(selectable(choice), top_k, idx),
        0 <= i < j < idx.len(),
    ensures
        idx[i] != idx[j],
        ({
            let a = choice[idx[i] as int];
            let b = choice[idx[j] as int];
            // Two positive numbers, two negative ones, one of each.
            &&& a <= 0x7f80_0000 && b <= 0x7f80_0000 ==> a > b || (a == b && idx[i] < idx[j])
            &&& 0x8000_0000 <= a <= 0xff80_0000 && 0x8000_0000 <= b <= 0xff80_0000 ==> a < b || (a
                == b && idx[i] < idx[j])
            &&& 0x8000_0000 <= a && b <= 0x7f80_0000 ==> false
            // No number: as negative infinity.
            &&& 0x7f80_0000 < a < 0x8000_0000 || a >= 0xff80_0000 ==> (0x7f80_0000 < b < 0x8000_0000
                || b >= 0xff80_0000) && idx[i] < idx[j]
        }),
{
    assert(ranking::ranks_before(selectable(choice), idx[i] as int, idx[j] as int));
}

/// The terms of the denominator are the raw scores: those of the selected experts in
/// their order, after them those of every shared expert.
pub proof fn law_terms_are_raw_scores(
    scores: Seq<u32>,
    n_routed: int,
    idx: Seq<usize>,
    terms: Seq<u32>,
    i: int,
)
    requires
        0 <= n_routed <= scores.len(),
        terms == picked(scores, idx) + scores.skip(n_routed),
        0 <= i < terms.len(),
    ensures
        terms.len() == idx.len() + scores.len() - n_routed,
        i < idx.len() ==> terms[i] == scores[idx[i] as int],
        i >= idx.len() ==> terms[i] == scores[n_routed + i - idx.len()],
{
}

/// A score that is no number is selected only where every score that is left out
/// ranks no better than negative infinity.
pub proof fn law_nan_ranks_last(choice: Seq<u32>, top_k: int, idx: Seq<usize>, i: int, e: usize)
    requires
        ranking::is_top(selectable(choice), top_k, idx),
        0 <= i < idx.len(),
        float_bits::nan(choice[idx[i] as int]),
        e < choice.len(),
        !idx.contains(e),
    ensures
        float_bits::nan(choice[e as int]) || choice[e as int] == NEGATIVE_INFINITY,
{
    let keys = selectable(choice);
    assert(ranking::ranks_before(keys, idx[i] as int, e as int));
    assert(keys[idx[i] as int] == NEGATIVE_INFINITY);
    assert(!float_bits::nan(keys[e as int]));
}

/// No expert is selected twice.
pub proof fn law_selection_is_distinct(choice: Seq<u32>, top_k: int, idx: Seq<usize>, i: int, j: int)
    requires
        ranking::is_top(selectable(choice), top_k, idx),
        0 <= i < j < idx.len(),
    ensures
        idx[i] != idx[j],
        idx[i] < choice.len(),
{
    assert(ranking::ranks_before(selectable(choice), idx[i] as int, idx[j] as int));
}

} // verus!
