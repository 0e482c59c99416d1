//! A block of rows through the experts: which slots each expert serves, where its
//! rows go, and in which order a row's terms add up.
//!
//! Every row of a block is routed first. Slot `row * top_k + rank` stands for one
//! expert evaluation; each expert is visited once, with all its slots, and its
//! rows are scattered back so that a row adds up exactly as a single token does.
use vstd::prelude::*;

use super::ffn;
use super::gate::GateOut;
use crate::ranges::{self, chunks};

verus! {

/// Visits that hold a buffer at the same time.
pub const VISIT_COHORT: usize = 8;

/// A row's routing fits a layer: `k` routed experts with their weights, and one
/// weight per shared expert.
pub open spec fn gate_fits(g: GateOut, n_routed: int, n_shared: int, k: int) -> bool {
    &&& g.idx.len() == k
    &&& g.w.len() == k
    &&& g.gammas.len() == n_shared
    &&& forall|i: int| 0 <= i < g.idx.len() ==> (#[trigger] g.idx[i]) < n_routed
}

/// All rows of a block fit.
pub open spec fn gates_fit(gates: Seq<GateOut>, n_routed: int, n_shared: int, k: int) -> bool {
    forall|r: int| 0 <= r < gates.len() ==> gate_fits(#[trigger] gates[r], n_routed, n_shared, k)
}

/// The expert of a slot.
pub open spec fn slot_expert(gates: Seq<GateOut>, k: int, s: int) -> int {
    gates[s / k].idx[s % k] as int
}

/// `list` holds exactly the slots below `upto` of expert `e`, ascending.
pub open spec fn lists_slots(
    list: Seq<usize>,
    gates: Seq<GateOut>,
    k: int,
    upto: int,
    e: int,
) -> bool {
    &&& forall|i: int, j: int|
        0 <= i < j < list.len() ==> (#[trigger] list[i]) < (#[trigger] list[j])
    &&& forall|i: int|
        0 <= i < list.len() ==> (#[trigger] list[i]) < upto && slot_expert(
            gates,
            k,
            list[i] as int,
        ) == e
    &&& forall|s: int|
        0 <= s < upto && #[trigger] slot_expert(gates, k, s) == e ==> list.contains(s as usize)
}

/// `used` holds exactly the experts with slots, ascending.
pub open spec fn lists_used(used: Seq<usize>, occ: Seq<Vec<usize>>) -> bool {
    &&& forall|i: int, j: int|
        0 <= i < j < used.len() ==> (#[trigger] used[i]) < (#[trigger] used[j])
    &&& forall|i: int|
        0 <= i < used.len() ==> (#[trigger] used[i]) < occ.len() && occ[used[i] as int].len() > 0
    &&& forall|e: int|
        0 <= e < occ.len() && (#[trigger] occ[e]).len() > 0 ==> used.contains(e as usize)
}

/// No slot is listed twice, within a list or over the lists.
pub open spec fn slots_disjoint(occ: Seq<Vec<usize>>, n_slots: int) -> bool {
    &&& forall|e: int, i: int|
        0 <= e < occ.len() && 0 <= i < occ[e].len() ==> (#[trigger] occ[e][i]) < n_slots
    &&& forall|e: int, i: int, f: int, j: int|
        0 <= e < occ.len() && 0 <= i < occ[e].len() && 0 <= f < occ.len() && 0 <= j < occ[f].len()
            && (#[trigger] occ[e][i]) == (#[trigger] occ[f][j]) ==> e == f && i == j
}

/// What a block evaluates.
pub struct BlockPlan {
    /// Weight bits of each slot.
    pub slot_w: Vec<u32>,
    /// Weight bits of the shared experts, `n_shared` per row.
    pub gammas: Vec<u32>,
    /// The slots of each routed expert.
    pub occ: Vec<Vec<usize>>,
    /// The experts with slots.
    pub unique: Vec<usize>,
}

/// The plan of a block of routed rows.
pub open spec fn plan_is(
    p: BlockPlan,
    gates: Seq<GateOut>,
    n_routed: int,
    n_shared: int,
    k: int,
) -> bool {
    &&& p.slot_w.len() == gates.len() * k
    &&& forall|r: int, j: int|
        0 <= r < gates.len() && 0 <= j < k ==> p.slot_w@[#[trigger] at(r, k, j)] == gates[r].w[j]
    &&& p.gammas.len() == gates.len() * n_shared
    &&& forall|r: int, j: int|
        0 <= r < gates.len() && 0 <= j < n_shared ==> p.gammas@[#[trigger] at(r, n_shared, j)]
            == gates[r].gammas[j]
    &&& p.occ.len() == n_routed
    &&& forall|e: int|
        0 <= e < n_routed ==> lists_slots(
            (#[trigger] p.occ[e])@,
            gates,
            k,
            gates.len() * k,
            e,
        )
    &&& lists_used(p.unique@, p.occ@)
}

/// Place `j` of row `r` in rows of `width`.
pub open spec fn at(r: int, width: int, j: int) -> int {
    r * width + j
}

pub proof fn lemma_at(r: int, width: int, j: int, n: int)
    requires
        0 <= r < n,
        0 <= j < width,
    ensures
        0 <= at(r, width, j) < n * width,
        at(r, width, j) / width == r,
        at(r, width, j) % width == j,
{
    assert(0 <= r * width + j && r * width + j < n * width) by (nonlinear_arith)
        requires
            0 <= r < n,
            0 <= j < width,
    ;
    vstd::arithmetic::div_mod::lemma_fundamental_div_mod_converse(at(r, width, j), width, r, j);
}

pub proof fn lemma_at_split(s: int, width: int, n: int)
    requires
        width > 0,
        0 <= s < n * width,
    ensures
        0 <= s / width < n,
        0 <= s % width < width,
        at(s / width, width, s % width) == s,
{
    vstd::arithmetic::div_mod::lemma_fundamental_div_mod(s, width);
    vstd::arithmetic::div_mod::lemma_div_pos_is_pos(s, width);
    let q = s / width;
    assert(s == width * q + s % width);
    assert(q * width == width * q) by (nonlinear_arith);
    assert(q < n) by (nonlinear_arith)
        requires
            q * width <= s,
            s < n * width,
            width > 0,
    ;
}

/// Plans a block: routes are given, slots are grouped by expert.
#[verifier::rlimit(40)]
pub fn plan_block(gates: &[GateOut], n_routed: usize, n_shared: usize, k: usize) -> (p: BlockPlan)
    requires
        k > 0,
        gates.len() * k <= usize::MAX,
        gates.len() * n_shared <= usize::MAX,
        gates_fit(gates@, n_routed as int, n_shared as int, k as int),
    ensures
        plan_is(p, gates@, n_routed as int, n_shared as int, k as int),
        slots_disjoint(p.occ@, gates.len() * k),
{
    let mut slot_w: Vec<u32> = Vec::new();
    let mut gammas: Vec<u32> = Vec::new();
    let mut occ: Vec<Vec<usize>> = Vec::new();
    let mut e: usize = 0;
    while e < n_routed
        invariant
            e <= n_routed,
            occ.len() == e,
            forall|x: int| 0 <= x < e ==> (#[trigger] occ[x])@ == Seq::<usize>::empty(),
        decreases n_routed - e,
    {
        occ.push(Vec::new());
        e += 1;
    }
    let mut r: usize = 0;
    while r < gates.len()
        invariant
            k > 0,
            gates.len() * k <= usize::MAX,
            gates_fit(gates@, n_routed as int, n_shared as int, k as int),
            r <= gates.len(),
            slot_w.len() == r * k,
            gammas.len() == r * n_shared,
            occ.len() == n_routed,
            forall|x: int, j: int|
                0 <= x < r && 0 <= j < k ==> slot_w@[#[trigger] at(x, k as int, j)]
                    == gates[x].w[j],
            forall|x: int, j: int|
                0 <= x < r && 0 <= j < n_shared ==> gammas@[#[trigger] at(x, n_shared as int, j)]
                    == gates[x].gammas[j],
            forall|x: int|
                0 <= x < n_routed ==> lists_slots(
                    (#[trigger] occ[x])@,
                    gates@,
                    k as int,
                    r * k,
                    x,
                ),
        decreases gates.len() - r,
    {
        let g: &GateOut = &gates[r];
        assert(gate_fits(gates@[r as int], n_routed as int, n_shared as int, k as int));
        assert((r + 1) * k == r * k + k && (r + 1) * n_shared == r * n_shared + n_shared && (r + 1)
            * k <= gates.len() * k) by (nonlinear_arith)
            requires
                r + 1 <= gates.len(),
        ;
        let mut j: usize = 0;
        while j < k
            invariant
                j <= k,
                r < gates.len(),
                k > 0,
                g == gates[r as int],
                gate_fits(gates@[r as int], n_routed as int, n_shared as int, k as int),
                r * k + k <= gates.len() * k,
                gates.len() * k <= usize::MAX,
                slot_w.len() == r * k + j,
                occ.len() == n_routed,
                forall|x: int, y: int|
                    0 <= x < r && 0 <= y < k ==> slot_w@[#[trigger] at(x, k as int, y)]
                        == gates[x].w[y],
                forall|y: int|
                    0 <= y < j ==> slot_w@[#[trigger] at(r as int, k as int, y)]
                        == gates[r as int].w[y],
                forall|x: int|
                    0 <= x < n_routed ==> lists_slots(
                        (#[trigger] occ[x])@,
                        gates@,
                        k as int,
                        r * k + j,
                        x,
                    ),
            decreases k - j,
        {
            let s: usize = slot_w.len();
            let id: usize = g.idx[j];
            proof {
                lemma_at(r as int, k as int, j as int, gates.len() as int);
                assert forall|x: int, y: int| 0 <= x < r && 0 <= y < k implies #[trigger] at(
                    x,
                    k as int,
                    y,
                ) < r * k by {
                    lemma_at(x, k as int, y, r as int);
                }
                assert(slot_expert(gates@, k as int, s as int) == id);
            }
            let ghost before = occ@;
            slot_w.push(g.w[j]);
            occ[id].push(s);
            proof {
                assert forall|x: int| 0 <= x < n_routed implies lists_slots(
                    (#[trigger] occ[x])@,
                    gates@,
                    k as int,
                    r * k + j + 1,
                    x,
                ) by {
                    assert(lists_slots(before[x]@, gates@, k as int, r * k + j, x));
                    if x == id {
                        let list = occ[x]@;
                        assert(list == before[x]@.push(s));
                        assert forall|t: int|
                            0 <= t < r * k + j + 1 && #[trigger] slot_expert(
                                gates@,
                                k as int,
                                t,
                            ) == x implies list.contains(t as usize) by {
                            if t == s {
                                assert(list[list.len() - 1] == s);
                            } else {
                                assert(before[x]@.contains(t as usize));
                                let q = choose|q: int|
                                    0 <= q < before[x]@.len() && before[x]@[q] == t as usize;
                                assert(list[q] == t as usize);
                            }
                        }
                    } else {
                        assert(occ[x] == before[x]);
                    }
                }
            }
            j += 1;
        }
        let mut t: usize = 0;
        while t < n_shared
            invariant
                t <= n_shared,
                r < gates.len(),
                g == gates[r as int],
                gate_fits(gates@[r as int], n_routed as int, n_shared as int, k as int),
                gammas.len() == r * n_shared + t,
                forall|x: int, y: int|
                    0 <= x < r && 0 <= y < n_shared ==> gammas@[#[trigger] at(
                        x,
                        n_shared as int,
                        y,
                    )] == gates[x].gammas[y],
                forall|y: int|
                    0 <= y < t ==> gammas@[#[trigger] at(r as int, n_shared as int, y)]
                        == gates[r as int].gammas[y],
            decreases n_shared - t,
        {
            proof {
                assert forall|x: int, y: int| 0 <= x < r && 0 <= y < n_shared implies #[trigger] at(
                    x,
                    n_shared as int,
                    y,
                ) < r * n_shared by {
                    lemma_at(x, n_shared as int, y, r as int);
                }
            }
            gammas.push(g.gammas[t]);
            t += 1;
        }
        r += 1;
    }
    let unique: Vec<usize> = used_experts(occ.as_slice());
    let p = BlockPlan { slot_w, gammas, occ, unique };
    proof {
        assert(plan_is(p, gates@, n_routed as int, n_shared as int, k as int));
        law_each_slot_is_served_once(p, gates@, n_routed as int, n_shared as int, k as int);
    }
    p
}

/// The experts with slots, ascending.
fn used_experts(occ: &[Vec<usize>]) -> (used: Vec<usize>)
    ensures
        lists_used(used@, occ@),
{
    let mut used: Vec<usize> = Vec::new();
    let mut e: usize = 0;
    while e < occ.len()
        invariant
            e <= occ.len(),
            forall|i: int, j: int|
                0 <= i < j < used.len() ==> (#[trigger] used[i]) < (#[trigger] used[j]),
            forall|i: int|
                0 <= i < used.len() ==> (#[trigger] used[i]) < e && occ[used[i] as int].len() > 0,
            forall|x: int|
                0 <= x < e && (#[trigger] occ[x]).len() > 0 ==> used@.contains(x as usize),
        decreases occ.len() - e,
    {
        let ghost before = used@;
        if occ[e].len() > 0 {
            used.push(e);
            proof {
                assert forall|x: int| 0 <= x < e + 1 && (#[trigger] occ[x]).len() > 0 implies used@.contains(
                    x as usize,
                ) by {
                    if x == e {
                        assert(used@[used.len() - 1] == e);
                    } else {
                        let q = choose|q: int| 0 <= q < before.len() && before[q] == x as usize;
                        assert(used@[q] == x as usize);
                    }
                }
            }
        }
        e += 1;
    }
    used
}

/// Each slot of a block is listed for exactly one expert, once.
pub proof fn law_each_slot_is_served_once(
    p: BlockPlan,
    gates: Seq<GateOut>,
    n_routed: int,
    n_shared: int,
    k: int,
)
    requires
        k > 0,
        gates_fit(gates, n_routed, n_shared, k),
        plan_is(p, gates, n_routed, n_shared, k),
    ensures
        slots_disjoint(p.occ@, gates.len() * k),
        forall|s: int|
            0 <= s < gates.len() * k ==> 0 <= #[trigger] slot_expert(gates, k, s) < n_routed
                && p.occ@[slot_expert(gates, k, s)]@.contains(s as usize)
                && p.unique@.contains(slot_expert(gates, k, s) as usize),
{
    let occ = p.occ@;
    assert forall|e: int, i: int| 0 <= e < occ.len() && 0 <= i < occ[e].len() implies (
    #[trigger] occ[e][i]) < gates.len() * k by {
        assert(lists_slots(p.occ[e]@, gates, k, gates.len() * k, e));
    }
    assert forall|e: int, i: int, f: int, j: int|
        0 <= e < occ.len() && 0 <= i < occ[e].len() && 0 <= f < occ.len() && 0 <= j < occ[f].len()
            && (#[trigger] occ[e][i]) == (#[trigger] occ[f][j]) implies e == f && i == j by {
        assert(lists_slots(p.occ[e]@, gates, k, gates.len() * k, e));
        assert(lists_slots(p.occ[f]@, gates, k, gates.len() * k, f));
        assert(slot_expert(gates, k, occ[e]@[i] as int) == e);
        assert(slot_expert(gates, k, occ[f]@[j] as int) == f);
        if i < j {
            assert(occ[e]@[i] < occ[e]@[j]);
        } else if j < i {
            assert(occ[e]@[j] < occ[e]@[i]);
        }
    }
    assert forall|s: int| 0 <= s < gates.len() * k implies 0 <= #[trigger] slot_expert(gates, k, s)
        < n_routed && p.occ@[slot_expert(gates, k, s)]@.contains(s as usize) && p.unique@.contains(
        slot_expert(gates, k, s) as usize,
    ) by {
        lemma_at_split(s, k, gates.len() as int);
        let g = gates[s / k];
        assert(gate_fits(g, n_routed, n_shared, k));
        assert(g.idx[s % k] < n_routed);
        let e = slot_expert(gates, k, s);
        assert(lists_slots(p.occ[e]@, gates, k, gates.len() * k, e));
        assert(p.occ[e]@.contains(s as usize));
        assert(p.occ@[e].len() > 0);
    }
}

/// Every visit brought one output row per slot of its expert.
pub open spec fn visits_fit(
    visits: Seq<(usize, Vec<u32>)>,
    occ: Seq<Vec<usize>>,
    hidden: int,
) -> bool {
    &&& forall|v: int|
        0 <= v < visits.len() ==> (#[trigger] visits[v]).0 < occ.len() && visits[v].1.len()
            == occ[visits[v].0 as int].len() * hidden
    &&& forall|v: int, u: int|
        0 <= v < u < visits.len() ==> (#[trigger] visits[v]).0 != (#[trigger] visits[u]).0
}

/// Slot `i` of a visit's expert got row `i` of the visit's output.
pub open spec fn scattered(
    ey: Seq<u32>,
    visit: (usize, Vec<u32>),
    occ: Seq<Vec<usize>>,
    hidden: int,
    i: int,
) -> bool {
    ffn::row_of(ey, hidden, occ[visit.0 as int][i] as int) =~= ffn::row_of(
        visit.1@,
        hidden,
        i,
    )
}

/// No visit's expert lists slot `s`.
pub open spec fn unserved(visits: Seq<(usize, Vec<u32>)>, occ: Seq<Vec<usize>>, s: int) -> bool {
    forall|v: int, i: int|
        0 <= v < visits.len() && 0 <= i < occ[visits[v].0 as int].len()
            ==> #[trigger] occ[visits[v].0 as int][i] != s
}

/// Row `s` is all zero bits.
pub open spec fn zero_row(ey: Seq<u32>, hidden: int, s: int) -> bool {
    ffn::row_of(ey, hidden, s) =~= Seq::new(hidden as nat, |j: int| 0u32)
}

/// Scatters the visits' rows to their slots. Slots that no visit serves stay zero.
#[verifier::rlimit(40)]
pub fn scatter_visits(
    visits: &[(usize, Vec<u32>)],
    occ: &[Vec<usize>],
    n_slots: usize,
    hidden: usize,
) -> (ey: Vec<u32>)
    requires
        hidden > 0,
        n_slots * hidden <= usize::MAX,
        slots_disjoint(occ@, n_slots as int),
        visits_fit(visits@, occ@, hidden as int),
    ensures
        ey.len() == n_slots * hidden,
        forall|v: int, i: int|
            0 <= v < visits.len() && 0 <= i < occ[visits[v].0 as int].len() ==> #[trigger] scattered(
                ey@,
                visits[v],
                occ@,
                hidden as int,
                i,
            ),
        forall|s: int|
            0 <= s < n_slots && unserved(visits@, occ@, s) ==> #[trigger] zero_row(
                ey@,
                hidden as int,
                s,
            ),
{
    let mut ey: Vec<u32> = vec![0u32; n_slots * hidden];
    proof {
        assert forall|s: int| 0 <= s < n_slots implies #[trigger] zero_row(ey@, hidden as int, s) by {
            assert(0 <= s * hidden && (s + 1) * hidden == s * hidden + hidden && (s + 1) * hidden
                <= n_slots * hidden) by (nonlinear_arith)
                requires
                    0 <= s < n_slots,
            ;
        }
    }
    let mut v: usize = 0;
    while v < visits.len()
        invariant
            hidden > 0,
            n_slots * hidden <= usize::MAX,
            slots_disjoint(occ@, n_slots as int),
            visits_fit(visits@, occ@, hidden as int),
            v <= visits.len(),
            ey.len() == n_slots * hidden,
            forall|x: int, i: int|
                0 <= x < v && 0 <= i < occ[visits[x].0 as int].len() ==> #[trigger] scattered(
                    ey@,
                    visits[x],
                    occ@,
                    hidden as int,
                    i,
                ),
            forall|s: int|
                0 <= s < n_slots && unserved(visits@, occ@, s) ==> #[trigger] zero_row(
                    ey@,
                    hidden as int,
                    s,
                ),
        decreases visits.len() - v,
    {
        let e: usize = visits[v].0;
        let list: &Vec<usize> = &occ[e];
        let mut i: usize = 0;
        while i < list.len()
            invariant
                hidden > 0,
                n_slots * hidden <= usize::MAX,
                slots_disjoint(occ@, n_slots as int),
                visits_fit(visits@, occ@, hidden as int),
                v < visits.len(),
                e == visits[v as int].0,
                *list == occ[e as int],
                i <= list.len(),
                ey.len() == n_slots * hidden,
                forall|x: int, y: int|
                    0 <= x < v && 0 <= y < occ[visits[x].0 as int].len() ==> #[trigger] scattered(
                        ey@,
                        visits[x],
                        occ@,
                        hidden as int,
                        y,
                    ),
                forall|y: int|
                    0 <= y < i ==> #[trigger] scattered(
                        ey@,
                        visits[v as int],
                        occ@,
                        hidden as int,
                        y,
                    ),
                forall|s: int|
                    0 <= s < n_slots && unserved(visits@, occ@, s) ==> #[trigger] zero_row(
                        ey@,
                        hidden as int,
                        s,
                    ),
            decreases list.len() - i,
        {
            let s: usize = list[i];
            let ghost before = ey@;
            assert(visits@[v as int].1.len() == list.len() * hidden);
            assert(occ@[e as int][i as int] == s);
            write_row(&mut ey, s, n_slots, &visits[v].1, i, list.len(), hidden);
            proof {
                assert forall|x: int, y: int|
                    0 <= x < v && 0 <= y < occ[visits[x].0 as int].len() implies #[trigger] scattered(
                    ey@,
                    visits[x],
                    occ@,
                    hidden as int,
                    y,
                ) by {
                    let f = visits@[x].0 as int;
                    assert(visits@[x].0 != visits@[v as int].0);
                    assert(scattered(before, visits[x], occ@, hidden as int, y));
                    let o = occ@[f][y];
                    assert(o != occ@[e as int][i as int]);
                    assert(same_row(before, ey@, hidden as int, o as int));
                }
                assert forall|y: int| 0 <= y < i + 1 implies #[trigger] scattered(
                    ey@,
                    visits[v as int],
                    occ@,
                    hidden as int,
                    y,
                ) by {
                    if y < i {
                        assert(scattered(before, visits[v as int], occ@, hidden as int, y));
                        let o = occ@[e as int][y];
                        assert(o != occ@[e as int][i as int]);
                        assert(same_row(before, ey@, hidden as int, o as int));
                    }
                }
                assert forall|x: int|
                    0 <= x < n_slots && unserved(visits@, occ@, x) implies #[trigger] zero_row(
                    ey@,
                    hidden as int,
                    x,
                ) by {
                    assert(zero_row(before, hidden as int, x));
                    assert(occ@[visits@[v as int].0 as int][i as int] != x);
                    assert(same_row(before, ey@, hidden as int, x));
                }
            }
            i += 1;
        }
        v += 1;
    }
    ey
}

/// Row `s` is the same in both.
pub open spec fn same_row(a: Seq<u32>, b: Seq<u32>, hidden: int, s: int) -> bool {
    ffn::row_of(a, hidden, s) =~= ffn::row_of(b, hidden, s)
}

/// Copies row `i` of `ys` to row `s` of `out`.
fn write_row(
    out: &mut Vec<u32>,
    s: usize,
    n_slots: usize,
    ys: &Vec<u32>,
    i: usize,
    n_rows: usize,
    hidden: usize,
)
    requires
        hidden > 0,
        s < n_slots,
        i < n_rows,
        n_slots * hidden <= usize::MAX,
        old(out).len() == n_slots * hidden,
        ys.len() == n_rows * hidden,
    ensures
        final(out).len() == old(out).len(),
        ffn::row_of(final(out)@, hidden as int, s as int) =~= ffn::row_of(
            ys@,
            hidden as int,
            i as int,
        ),
        forall|x: int|
            0 <= x < n_slots && x != s ==> #[trigger] same_row(
                old(out)@,
                final(out)@,
                hidden as int,
                x,
            ),
{
    assert(s * hidden + hidden <= n_slots * hidden && i * hidden + hidden <= n_rows * hidden
        && (s + 1) * hidden == s * hidden + hidden && (i + 1) * hidden == i * hidden + hidden)
        by (nonlinear_arith)
        requires
            s < n_slots,
            i < n_rows,
    ;
    let to: usize = s * hidden;
    let from: usize = i * hidden;
    let mut c: usize = 0;
    while c < hidden
        invariant
            c <= hidden,
            to == s * hidden,
            from == i * hidden,
            to + hidden <= out.len(),
            from + hidden <= ys.len(),
            out.len() == old(out).len(),
            forall|x: int| 0 <= x < c ==> #[trigger] out@[to + x] == ys@[from + x],
            forall|x: int|
                0 <= x < out.len() && !(to <= x < to + hidden) ==> #[trigger] out@[x] == old(out)@[x],
        decreases hidden - c,
    {
        out.set(to + c, ys[from + c]);
        c += 1;
    }
    proof {
        let a = ffn::row_of(out@, hidden as int, s as int);
        let b = ffn::row_of(ys@, hidden as int, i as int);
        assert forall|x: int| 0 <= x < hidden implies a[x] == b[x] by {
            assert(out@[to + x] == ys@[from + x]);
        }
        assert forall|x: int| 0 <= x < n_slots && x != s implies #[trigger] same_row(
            old(out)@,
            out@,
            hidden as int,
            x,
        ) by {
            assert(0 <= x * hidden && (x + 1) * hidden == x * hidden + hidden && (x + 1) * hidden
                <= n_slots * hidden && (x * hidden + hidden <= s * hidden || s * hidden + hidden
                <= x * hidden)) by (nonlinear_arith)
                requires
                    0 <= x < n_slots,
                    x != s,
                    hidden > 0,
            ;
        }
    }
}

/// What one term of a row's sum multiplies with its weight.
#[derive(Clone, Copy, PartialEq, Eq, Structural, Debug)]
pub enum Term {
    /// The output row of a slot.
    Slot(usize),
    /// The output of a shared expert for this row.
    Shared(usize),
}

/// The terms of a row: its slots in gate order, then the shared experts.
pub open spec fn row_terms_of(
    p: BlockPlan,
    row: int,
    k: int,
    n_shared: int,
    local_shared: int,
) -> Seq<(u32, Term)> {
    Seq::new(
        (k + local_shared) as nat,
        |j: int|
            if j < k {
                (p.slot_w@[at(row, k, j)], Term::Slot(at(row, k, j) as usize))
            } else {
                (p.gammas@[at(row, n_shared, j - k)], Term::Shared((j - k) as usize))
            },
    )
}

/// The terms whose sum is a row's output, in the order in which they add up.
pub fn row_terms(
    p: &BlockPlan,
    row: usize,
    rows: usize,
    k: usize,
    n_shared: usize,
    local_shared: usize,
) -> (t: Vec<(u32, Term)>)
    requires
        row < rows,
        p.slot_w.len() == rows * k,
        p.gammas.len() == rows * n_shared,
        local_shared <= n_shared,
    ensures
        t@ =~= row_terms_of(*p, row as int, k as int, n_shared as int, local_shared as int),
{
    let mut t: Vec<(u32, Term)> = Vec::new();
    let mut j: usize = 0;
    while j < k
        invariant
            j <= k,
            row < rows,
            p.slot_w.len() == rows * k,
            t@ =~= row_terms_of(
                *p,
                row as int,
                k as int,
                n_shared as int,
                local_shared as int,
            ).take(j as int),
        decreases k - j,
    {
        proof {
            lemma_at(row as int, k as int, j as int, rows as int);
            assert(row * k <= row * k + j);
            assert(row * k >= 0) by (nonlinear_arith);
        }
        let s: usize = row * k + j;
        t.push((p.slot_w[s], Term::Slot(s)));
        j += 1;
    }
    let mut x: usize = 0;
    while x < local_shared
        invariant
            x <= local_shared <= n_shared,
            row < rows,
            p.gammas.len() == rows * n_shared,
            t@ =~= row_terms_of(
                *p,
                row as int,
                k as int,
                n_shared as int,
                local_shared as int,
            ).take(k + x),
        decreases local_shared - x,
    {
        proof {
            lemma_at(row as int, n_shared as int, x as int, rows as int);
            assert(row * n_shared >= 0) by (nonlinear_arith);
        }
        t.push((p.gammas[row * n_shared + x], Term::Shared(x)));
        x += 1;
    }
    t
}

/// The expert that a term evaluates.
pub open spec fn term_expert(gates: Seq<GateOut>, k: int, n_routed: int, t: Term) -> int {
    match t {
        Term::Slot(s) => slot_expert(gates, k, s as int),
        Term::Shared(x) => n_routed + x,
    }
}

/// The experts and weights of one token, in the order in which they add up: the
/// routed ones in gate order, then the shared ones.
pub open spec fn token_terms(g: GateOut, n_routed: int) -> Seq<(int, u32)> {
    Seq::new(
        (g.idx.len() + g.gammas.len()) as nat,
        |j: int|
            if j < g.idx.len() {
                (g.idx[j] as int, g.w[j])
            } else {
                (n_routed + j - g.idx.len(), g.gammas[j - g.idx.len()])
            },
    )
}

/// A row of a block adds up the same experts with the same weights in the same
/// order as the row alone does.
pub proof fn law_block_adds_up_like_one_token(
    p: BlockPlan,
    gates: Seq<GateOut>,
    n_routed: int,
    n_shared: int,
    k: int,
    row: int,
    j: int,
)
    requires
        k > 0,
        n_shared >= 0,
        gates_fit(gates, n_routed, n_shared, k),
        plan_is(p, gates, n_routed, n_shared, k),
        0 <= row < gates.len(),
        gates.len() * k <= usize::MAX,
        n_shared <= usize::MAX,
        0 <= j < k + n_shared,
    ensures
        row_terms_of(p, row, k, n_shared, n_shared).len() == token_terms(gates[row], n_routed).len(),
        ({
            let (weight, term) = row_terms_of(p, row, k, n_shared, n_shared)[j];
            (term_expert(gates, k, n_routed, term), weight) == token_terms(gates[row], n_routed)[j]
        }),
{
    assert(gate_fits(gates[row], n_routed, n_shared, k));
    if j < k {
        lemma_at(row, k, j, gates.len() as int);
        assert(p.slot_w@[at(row, k, j)] == gates[row].w[j]);
        assert(at(row, k, j) as usize == at(row, k, j));
    } else {
        assert(p.gammas@[at(row, n_shared, j - k)] == gates[row].gammas[j - k]);
    }
}

/// Where an expert's weights come from for its visit.
#[derive(Clone, Copy, PartialEq, Eq, Structural, Debug)]
pub enum VisitSource {
    /// From the cached bytes.
    Cached,
    /// From a buffer that is to be read.
    Read,
    /// From the expert's own storage.
    Storage,
}

/// Chooses the source of a visit.
pub fn visit_source(mapped: bool, cached: bool, streamed: bool) -> (s: VisitSource)
    ensures
        s is Cached <==> mapped && cached,
        s is Read <==> mapped && !cached && streamed,
{
    if mapped && cached {
        VisitSource::Cached
    } else if mapped && streamed {
        VisitSource::Read
    } else {
        VisitSource::Storage
    }
}

/// How a visit computes, once its source is known to be readable or not.
#[derive(Clone, Copy, PartialEq, Eq, Structural, Debug)]
pub struct VisitKernel {
    /// From a whole buffer rather than the expert's own storage.
    pub buffered: bool,
    /// All rows in one pass.
    pub at_once: bool,
    /// The buffer is offered to the cache afterwards.
    pub retain: bool,
}

/// Settles a visit: a failed read falls back to the expert's own storage, rows run
/// in one pass only from a buffer, and only freshly read bytes are offered to the
/// cache.
pub fn visit_kernel(
    source: VisitSource,
    read_ok: bool,
    gemm: bool,
    slots: usize,
    cache_on: bool,
) -> (v: VisitKernel)
    ensures
        v.buffered == (source is Cached || (source is Read && read_ok)),
        v.at_once == (v.buffered && gemm && slots >= 2),
        v.retain == (source is Read && read_ok && cache_on),
{
    let ready: bool = match source {
        VisitSource::Read => read_ok,
        _ => false,
    };
    let buffered: bool = match source {
        VisitSource::Cached => true,
        _ => ready,
    };
    VisitKernel { buffered, at_once: buffered && gemm && slots >= 2, retain: ready && cache_on }
}

/// The experts whose pages are hinted at before a block runs: those with slots, unless
/// every expert is read whole. Shared experts are hinted at in any case.
pub fn block_prefetches(p: &BlockPlan, streamed: bool) -> (ids: Vec<usize>)
    ensures
        streamed ==> ids@ == Seq::<usize>::empty(),
        !streamed ==> ids@ == p.unique@,
{
    if streamed {
        Vec::new()
    } else {
        p.unique.clone()
    }
}

/// The visits that run together, as ranges of the experts with slots: fixed cohorts
/// where every visit holds a buffer, which bounds the buffers alive at once; all of
/// them otherwise.
pub fn visit_cohorts(visits: usize, streamed: bool) -> (r: Vec<(usize, usize)>)
    ensures
        streamed ==> ranges::is_chunks(r@, visits as int, VISIT_COHORT as int),
        streamed ==> ranges::is_chunks(r@, visits as int, 8),
        !streamed ==> r@ == seq![(0usize, visits)],
{
    if streamed {
        chunks(visits, VISIT_COHORT)
    } else {
        let mut r: Vec<(usize, usize)> = Vec::new();
        r.push((0, visits));
        proof {
            assert(r@ =~= seq![(0usize, visits)]);
        }
        r
    }
}

/// A shared expert runs once over the whole block, where rows can run in one pass and
/// there is more than one; else once per row.
pub fn shared_at_once(gemm: bool, rows: usize) -> (b: bool)
    ensures
        b == (gemm && rows >= 2),
{
    gemm && rows >= 2
}

/// The slot of rank `j` of a row holds what the visit of its own expert computed for
/// that row: however the experts are visited, every term is in its place.
pub proof fn law_every_slot_gets_its_output(
    p: BlockPlan,
    gates: Seq<GateOut>,
    n_routed: int,
    n_shared: int,
    k: int,
    visits: Seq<(usize, Vec<u32>)>,
    ey: Seq<u32>,
    hidden: int,
    row: int,
    j: int,
)
    requires
        k > 0,
        gates.len() * k <= usize::MAX,
        gates_fit(gates, n_routed, n_shared, k),
        plan_is(p, gates, n_routed, n_shared, k),
        visits.len() == p.unique.len(),
        forall|v: int| 0 <= v < visits.len() ==> (#[trigger] visits[v]).0 == p.unique[v],
        forall|v: int, i: int|
            0 <= v < visits.len() && 0 <= i < p.occ[visits[v].0 as int].len()
                ==> #[trigger] scattered(ey, visits[v], p.occ@, hidden, i),
        0 <= row < gates.len(),
        0 <= j < k,
    ensures
        exists|v: int, i: int|
            #![trigger p.occ[visits[v].0 as int][i]]
            0 <= v < visits.len() && 0 <= i < p.occ[visits[v].0 as int].len() && visits[v].0
                == gates[row].idx[j] && p.occ[visits[v].0 as int][i] == at(row, k, j)
                && ffn::row_of(ey, hidden, at(row, k, j)) == ffn::row_of(
                visits[v].1@,
                hidden,
                i,
            ),
{
    let s = at(row, k, j);
    lemma_at(row, k, j, gates.len() as int);
    law_each_slot_is_served_once(p, gates, n_routed, n_shared, k);
    assert(slot_expert(gates, k, s) == gates[row].idx[j]);
    let e = gates[row].idx[j];
    assert(p.unique@.contains(e));
    let v = choose|v: int| 0 <= v < p.unique@.len() && p.unique@[v] == e;
    assert(visits[v].0 == e);
    assert(p.occ@[e as int]@.contains(s as usize));
    let i = choose|i: int| 0 <= i < p.occ@[e as int]@.len() && p.occ@[e as int]@[i] == s as usize;
    assert(scattered(ey, visits[v], p.occ@, hidden, i));
    assert(p.occ[visits[v].0 as int][i] == s);
}

/// Every visit gave each of its slots what its expert gives for the slot's row: `out` maps an
/// expert and a row to the output row.
pub open spec fn visits_give(
    visits: Seq<(usize, Vec<u32>)>,
    p: BlockPlan,
    k: int,
    hidden: int,
    out: spec_fn(int, int) -> Seq<u32>,
) -> bool {
    &&& visits.len() == p.unique.len()
    &&& forall|v: int| 0 <= v < visits.len() ==> (#[trigger] visits[v]).0 == p.unique[v]
    &&& forall|v: int, i: int|
        0 <= v < visits.len() && 0 <= i < p.occ[visits[v].0 as int].len() ==> ffn::row_of(
            visits[v].1@,
            hidden,
            i,
        ) == out(visits[v].0 as int, #[trigger] p.occ[visits[v].0 as int][i] as int / k)
}

/// Every visit's rows were scattered to their slots.
pub open spec fn all_scattered(
    ey: Seq<u32>,
    visits: Seq<(usize, Vec<u32>)>,
    occ: Seq<Vec<usize>>,
    hidden: int,
) -> bool {
    forall|v: int, i: int|
        0 <= v < visits.len() && 0 <= i < occ[visits[v].0 as int].len() ==> #[trigger] scattered(
            ey,
            visits[v],
            occ,
            hidden,
            i,
        )
}

/// What a row adds up: the weight of each term and the output that it multiplies. `shared`
/// maps a shared expert and a row to the output row.
pub open spec fn row_values(
    p: BlockPlan,
    ey: Seq<u32>,
    shared: spec_fn(int, int) -> Seq<u32>,
    row: int,
    k: int,
    n_shared: int,
    hidden: int,
) -> Seq<(u32, Seq<u32>)> {
    row_terms_of(p, row, k, n_shared, n_shared).map_values(
        |t: (u32, Term)|
            (
                t.0,
                match t.1 {
                    Term::Slot(s) => ffn::row_of(ey, hidden, s as int),
                    Term::Shared(x) => shared(x as int, row),
                },
            ),
    )
}

/// What one token adds up, where `out` maps an expert, shared ones under the ids after the
/// routed ones, and a row to the output row.
pub open spec fn token_values(
    g: GateOut,
    n_routed: int,
    out: spec_fn(int, int) -> Seq<u32>,
    row: int,
) -> Seq<(u32, Seq<u32>)> {
    token_terms(g, n_routed).map_values(|t: (int, u32)| (t.1, out(t.0, row)))
}

/// A row of a block adds up the same bits in the same order as a token of its own routing.
pub proof fn law_block_row_adds_up_like_its_token(
    p: BlockPlan,
    gates: Seq<GateOut>,
    n_routed: int,
    n_shared: int,
    k: int,
    visits: Seq<(usize, Vec<u32>)>,
    ey: Seq<u32>,
    shared: spec_fn(int, int) -> Seq<u32>,
    hidden: int,
    out: spec_fn(int, int) -> Seq<u32>,
    row: int,
)
    requires
        k > 0,
        n_shared >= 0,
        gates.len() * k <= usize::MAX,
        n_shared <= usize::MAX,
        gates_fit(gates, n_routed, n_shared, k),
        plan_is(p, gates, n_routed, n_shared, k),
        visits_give(visits, p, k, hidden, out),
        all_scattered(ey, visits, p.occ@, hidden),
        forall|x: int|
            0 <= x < n_shared ==> #[trigger] shared(x, row) == out(n_routed + x, row),
        0 <= row < gates.len(),
    ensures
        row_values(p, ey, shared, row, k, n_shared, hidden) == token_values(
            gates[row],
            n_routed,
            out,
            row,
        ),
{
    let a = row_values(p, ey, shared, row, k, n_shared, hidden);
    let b = token_values(gates[row], n_routed, out, row);
    assert(gate_fits(gates[row], n_routed, n_shared, k));
    assert(a.len() == k + n_shared && b.len() == k + n_shared);
    assert forall|j: int| 0 <= j < k + n_shared implies a[j] == b[j] by {
        law_block_adds_up_like_one_token(p, gates, n_routed, n_shared, k, row, j);
        if j < k {
            lemma_slot_output(p, gates, n_routed, n_shared, k, visits, ey, hidden, out, row, j);
            lemma_at(row, k, j, gates.len() as int);
        } else {
            assert(shared(j - k, row) == out(n_routed + (j - k), row));
        }
    }
    assert(a =~= b);
}

/// A row of a block comes out bit for bit as it does where the row is a block of its own, for
/// whatever function `add_up` makes an output of weights and rows. Neither run says how its
/// visits computed: all their rows at once or one by one, from a cache, a read buffer or
/// storage, together or in cohorts.
pub proof fn law_block_row_is_bit_for_bit_the_row_alone(
    p: BlockPlan,
    alone: BlockPlan,
    gates: Seq<GateOut>,
    n_routed: int,
    n_shared: int,
    k: int,
    visits: Seq<(usize, Vec<u32>)>,
    alone_visits: Seq<(usize, Vec<u32>)>,
    ey: Seq<u32>,
    alone_ey: Seq<u32>,
    shared: spec_fn(int, int) -> Seq<u32>,
    alone_shared: spec_fn(int, int) -> Seq<u32>,
    hidden: int,
    out: spec_fn(int, int) -> Seq<u32>,
    alone_out: spec_fn(int, int) -> Seq<u32>,
    add_up: spec_fn(Seq<(u32, Seq<u32>)>) -> Seq<u32>,
    row: int,
)
    requires
        k > 0,
        n_shared >= 0,
        gates.len() * k <= usize::MAX,
        n_shared <= usize::MAX,
        gates_fit(gates, n_routed, n_shared, k),
        plan_is(p, gates, n_routed, n_shared, k),
        visits_give(visits, p, k, hidden, out),
        all_scattered(ey, visits, p.occ@, hidden),
        forall|x: int|
            0 <= x < n_shared ==> #[trigger] shared(x, row) == out(n_routed + x, row),
        0 <= row < gates.len(),
        plan_is(alone, seq![gates[row]], n_routed, n_shared, k),
        visits_give(alone_visits, alone, k, hidden, alone_out),
        all_scattered(alone_ey, alone_visits, alone.occ@, hidden),
        forall|x: int|
            0 <= x < n_shared ==> #[trigger] alone_shared(x, 0) == alone_out(n_routed + x, 0),
        forall|e: int| #[trigger] alone_out(e, 0) == out(e, row),
    ensures
        row_values(p, ey, shared, row, k, n_shared, hidden) == row_values(
            alone,
            alone_ey,
            alone_shared,
            0,
            k,
            n_shared,
            hidden,
        ),
        add_up(row_values(p, ey, shared, row, k, n_shared, hidden)) == add_up(
            row_values(alone, alone_ey, alone_shared, 0, k, n_shared, hidden),
        ),
{
    let one = seq![gates[row]];
    assert(gates_fit(one, n_routed, n_shared, k)) by {
        assert(gate_fits(gates[row], n_routed, n_shared, k));
    }
    assert(one.len() * k == k) by (nonlinear_arith)
        requires
            one.len() == 1,
    ;
    assert(k <= gates.len() * k) by (nonlinear_arith)
        requires
            gates.len() >= 1,
            k > 0,
    ;
    law_block_row_adds_up_like_its_token(
        p,
        gates,
        n_routed,
        n_shared,
        k,
        visits,
        ey,
        shared,
        hidden,
        out,
        row,
    );
    law_block_row_adds_up_like_its_token(
        alone,
        one,
        n_routed,
        n_shared,
        k,
        alone_visits,
        alone_ey,
        alone_shared,
        hidden,
        alone_out,
        0,
    );
    assert(token_values(one[0], n_routed, alone_out, 0) =~= token_values(
        gates[row],
        n_routed,
        out,
        row,
    ));
}

proof fn lemma_slot_output(
    p: BlockPlan,
    gates: Seq<GateOut>,
    n_routed: int,
    n_shared: int,
    k: int,
    visits: Seq<(usize, Vec<u32>)>,
    ey: Seq<u32>,
    hidden: int,
    out: spec_fn(int, int) -> Seq<u32>,
    row: int,
    j: int,
)
    requires
        k > 0,
        gates.len() * k <= usize::MAX,
        gates_fit(gates, n_routed, n_shared, k),
        plan_is(p, gates, n_routed, n_shared, k),
        visits_give(visits, p, k, hidden, out),
        all_scattered(ey, visits, p.occ@, hidden),
        0 <= row < gates.len(),
        0 <= j < k,
    ensures
        ffn::row_of(ey, hidden, at(row, k, j)) == out(gates[row].idx[j] as int, row),
{
    law_every_slot_gets_its_output(
        p,
        gates,
        n_routed,
        n_shared,
        k,
        visits,
        ey,
        hidden,
        row,
        j,
    );
    lemma_at(row, k, j, gates.len() as int);
    let (v, i) = choose|v: int, i: int|
        #![trigger p.occ[visits[v].0 as int][i]]
        0 <= v < visits.len() && 0 <= i < p.occ[visits[v].0 as int].len() && visits[v].0
            == gates[row].idx[j] && p.occ[visits[v].0 as int][i] == at(row, k, j) && ffn::row_of(
            ey,
            hidden,
            at(row, k, j),
        ) == ffn::row_of(visits[v].1@, hidden, i);
    assert(p.occ[visits[v].0 as int][i] as int / k == row);
}

/// Slots stand row by row: slot `r * k + j` is the `j`-th selected expert of row `r`.
pub proof fn law_slots_stand_row_by_row(gates: Seq<GateOut>, k: int, r: int, j: int)
    requires
        0 <= r,
        0 <= j < k,
    ensures
        slot_expert(gates, k, r * k + j) == gates[r].idx[j],
        at(r, k, j) == r * k + j,
{
    vstd::arithmetic::div_mod::lemma_fundamental_div_mod_converse(r * k + j, k, r, j);
}

/// A token adds up its selected experts in their order with their weights, and after them
/// every shared expert with its own.
pub proof fn law_terms_of_a_token(g: GateOut, n_routed: int, j: int)
    requires
        0 <= j < g.idx.len() + g.gammas.len(),
    ensures
        token_terms(g, n_routed).len() == g.idx.len() + g.gammas.len(),
        j < g.idx.len() ==> token_terms(g, n_routed)[j].0 == g.idx[j] && token_terms(
            g,
            n_routed,
        )[j].1 == g.w[j],
        j >= g.idx.len() ==> token_terms(g, n_routed)[j].0 == n_routed + (j - g.idx.len())
            && token_terms(g, n_routed)[j].1 == g.gammas[j - g.idx.len()],
{
}

/// A row of a block adds up its own slots with their weights, and after them the shared
/// experts with the row's own weights for them.
pub proof fn law_terms_of_a_block_row(
    p: BlockPlan,
    row: int,
    k: int,
    n_shared: int,
    local_shared: int,
    j: int,
)
    requires
        0 <= row,
        0 <= k,
        0 <= local_shared,
        0 <= j < k + local_shared,
        row * k + k <= usize::MAX,
        local_shared <= usize::MAX,
    ensures
        ({
            let t = row_terms_of(p, row, k, n_shared, local_shared);
            &&& t.len() == k + local_shared
            &&& j < k ==> t[j].0 == p.slot_w@[row * k + j] && (t[j].1 matches Term::Slot(s) && s
                == row * k + j)
            &&& j >= k ==> t[j].0 == p.gammas@[row * n_shared + (j - k)] && (
            t[j].1 matches Term::Shared(x) && x == j - k)
        }),
{
    assert(row * k >= 0) by (nonlinear_arith)
        requires
            0 <= row,
            0 <= k,
    ;
}

/// A plan carries the weights of its gates, row by row, and lists for each expert its
/// slots in ascending order.
pub proof fn law_a_plan_carries_its_gates(
    p: BlockPlan,
    gates: Seq<GateOut>,
    n_routed: int,
    n_shared: int,
    k: int,
    r: int,
    j: int,
    e: int,
    s: int,
)
    requires
        plan_is(p, gates, n_routed, n_shared, k),
        0 <= r < gates.len(),
        0 <= e < n_routed,
        0 <= s < gates.len() * k,
        gates.len() * k <= usize::MAX,
    ensures
        p.slot_w.len() == gates.len() * k,
        p.gammas.len() == gates.len() * n_shared,
        p.occ.len() == n_routed,
        0 <= j < k ==> p.slot_w@[r * k + j] == gates[r].w[j],
        0 <= j < n_shared ==> p.gammas@[r * n_shared + j] == gates[r].gammas[j],
        p.occ[e]@.contains(s as usize) <==> slot_expert(gates, k, s) == e,
        p.unique@.contains(e as usize) <==> p.occ[e].len() > 0,
{
    if 0 <= j < k {
        assert(p.slot_w@[at(r, k, j)] == gates[r].w[j]);
    }
    if 0 <= j < n_shared {
        assert(p.gammas@[at(r, n_shared, j)] == gates[r].gammas[j]);
    }
    assert(lists_slots(p.occ[e]@, gates, k, gates.len() * k, e));
    if p.occ[e]@.contains(s as usize) {
        let i = choose|i: int| 0 <= i < p.occ[e]@.len() && p.occ[e]@[i] == s as usize;
        assert(slot_expert(gates, k, p.occ[e]@[i] as int) == e);
    }
    if p.unique@.contains(e as usize) {
        let i = choose|i: int| 0 <= i < p.unique@.len() && p.unique@[i] == e as usize;
        assert(p.occ@[p.unique@[i] as int].len() > 0);
    }
    if p.occ[e].len() > 0 {
        assert(p.occ@[e].len() > 0);
    }
}

/// A slot that no visit served holds zeros.
pub proof fn law_an_unserved_slot_is_zero(ey: Seq<u32>, hidden: int, s: int, x: int)
    requires
        zero_row(ey, hidden, s),
        0 <= s,
        0 <= x < hidden,
        (s + 1) * hidden <= ey.len(),
    ensures
        ey[s * hidden + x] == 0,
{
    ffn::law_rows_are_cut_side_by_side(ey, hidden, s, x);
    assert(ffn::row_of(ey, hidden, s)[x] == 0);
}

} // verus!
