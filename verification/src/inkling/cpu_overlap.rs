//! A diagnostic before serving: the host's attention work runs beside an independent
//! device call, and the times are compared. It runs on histories of its own and leaves
//! every live sequence as it is.
use vstd::prelude::*;

use crate::inkling::attn::AttentionLayer;
use crate::inkling::conv::{self, ShortConv};
use crate::inkling::ring::DEFAULT_REWIND;

verus! {

/// Positions that a probe's convolutions have consumed before each step.
pub const PROBE_HISTORY: usize = 3;

/// The layer to measure: the first that routes and that the device has, if any.
pub fn measured_layer(routes: &[bool], on_device: &[bool]) -> (r: Option<usize>)
    requires
        routes.len() == on_device.len(),
    ensures
        match r {
            Some(i) => i < routes.len() && routes[i as int] && on_device[i as int] && forall|j: int|
                #![trigger routes[j]]
                0 <= j < i ==> !(routes[j] && on_device[j]),
            None => forall|j: int|
                #![trigger routes[j]]
                0 <= j < routes.len() ==> !(routes[j] && on_device[j]),
        },
{
    let mut i: usize = 0;
    while i < routes.len()
        invariant
            i <= routes.len(),
            routes.len() == on_device.len(),
            forall|j: int| #![trigger routes[j]] 0 <= j < i ==> !(routes[j] && on_device[j]),
        decreases routes.len() - i,
    {
        if routes[i] && on_device[i] {
            return Some(i);
        }
        i += 1;
    }
    None
}

/// Expert `j` of row `row` in a measured call: spread over the routed ones, then every
/// shared one.
pub open spec fn probe_id(row: int, j: int, top_k: int, routed: int) -> int {
    if j < top_k {
        (row * 17 + j * 43) % routed
    } else {
        routed + (j - top_k)
    }
}

/// The experts of a measured call.
pub fn probe_ids(rows: usize, top_k: usize, shared: usize, routed: usize) -> (ids: Vec<i32>)
    requires
        routed > 0,
        routed + shared <= i32::MAX,
        top_k + shared <= usize::MAX,
        rows * 17 + top_k * 43 <= usize::MAX,
        rows * (top_k + shared) <= usize::MAX,
    ensures
        ids.len() == rows * (top_k + shared),
        forall|r: int, j: int|
            0 <= r < rows && 0 <= j < top_k + shared ==> ids@[#[trigger] slot(
                r,
                j,
                top_k + shared,
            )] == probe_id(r, j, top_k as int, routed as int),
{
    let mut ids: Vec<i32> = Vec::new();
    let w: usize = top_k + shared;
    let mut r: usize = 0;
    while r < rows
        invariant
            r <= rows,
            routed > 0,
            routed + shared <= i32::MAX,
            w == top_k + shared,
            rows * 17 + top_k * 43 <= usize::MAX,
            ids.len() == r * w,
            forall|a: int, j: int|
                0 <= a < r && 0 <= j < w ==> ids@[#[trigger] slot(a, j, w as int)] == probe_id(
                    a,
                    j,
                    top_k as int,
                    routed as int,
                ),
        decreases rows - r,
    {
        let ghost done = ids@;
        proof {
            assert((r + 1) * w == r * w + w && 0 <= r * w) by (nonlinear_arith);
        }
        let mut j: usize = 0;
        while j < w
            invariant
                j <= w,
                r < rows,
                routed > 0,
                routed + shared <= i32::MAX,
                w == top_k + shared,
                rows * 17 + top_k * 43 <= usize::MAX,
                done.len() == r * w,
                ids.len() == r * w + j,
                ids@.take(done.len() as int) =~= done,
                forall|b: int|
                    0 <= b < j ==> ids@[#[trigger] slot(r as int, b, w as int)] == probe_id(
                        r as int,
                        b,
                        top_k as int,
                        routed as int,
                    ),
            decreases w - j,
        {
            let id: usize = if j < top_k {
                (r * 17 + j * 43) % routed
            } else {
                routed + (j - top_k)
            };
            let ghost before = ids@;
            ids.push(id as i32);
            proof {
                assert(ids@.take(done.len() as int) =~= done);
                assert forall|b: int| 0 <= b < j + 1 implies ids@[#[trigger] slot(
                    r as int,
                    b,
                    w as int,
                )] == probe_id(r as int, b, top_k as int, routed as int) by {
                    if b < j {
                        assert(ids@[slot(r as int, b, w as int)] == before[slot(
                            r as int,
                            b,
                            w as int,
                        )]);
                    }
                }
            }
            j += 1;
        }
        proof {
            assert forall|a: int, b: int| 0 <= a < r + 1 && 0 <= b < w implies ids@[#[trigger] slot(
                a,
                b,
                w as int,
            )] == probe_id(a, b, top_k as int, routed as int) by {
                if a < r {
                    assert(0 <= a * w && a * w + w <= r * w) by (nonlinear_arith)
                        requires
                            0 <= a < r,
                            0 <= w,
                    ;
                    assert(ids@.take(done.len() as int)[slot(a, b, w as int)] == done[slot(
                        a,
                        b,
                        w as int,
                    )]);
                }
            }
        }
        r += 1;
    }
    ids
}

/// Where expert `j` of row `r` stands in rows of `w`.
pub open spec fn slot(r: int, j: int, w: int) -> int {
    r * w + j
}

/// One row's own histories.
pub struct CpuProbeSlot {
    pub kc: ShortConv,
    pub vc: ShortConv,
}

/// The host's attention work for some rows at one context length.
pub struct CpuProbe {
    pub slots: Vec<CpuProbeSlot>,
    pub context: usize,
    pub kr: Vec<u32>,
    pub vr: Vec<u32>,
}

/// A history of the same input again and again.
pub open spec fn primed(c: ShortConv, u: Seq<u32>) -> bool {
    &&& c.wf()
    &&& c.c == u.len()
    &&& c.history().rows() >= PROBE_HISTORY + 1
    &&& c.history().mark() <= PROBE_HISTORY + 1
    &&& c.history().slack() >= 1
    &&& PROBE_HISTORY <= c.history().length() <= PROBE_HISTORY + 1
    &&& forall|q: int| 0 <= q < PROBE_HISTORY ==> #[trigger] c.history().held()[q] == u
    &&& forall|q: int|
        0 <= q < c.history().length() ==> #[trigger] c.history().held().dom().contains(q)
}

/// Two convolutions with the same kernel.
pub open spec fn same_taps(a: ShortConv, b: ShortConv) -> bool {
    &&& a.w@ == b.w@
    &&& a.c == b.c
    &&& a.k == b.k
}

/// What a step reads: the input itself as far back as the history goes, then nothing.
pub open spec fn repeated_taps(taps: Seq<Option<Vec<u32>>>, u: Seq<u32>, k: int) -> bool {
    &&& taps.len() == k
    &&& forall|j: int|
        0 <= j < k ==> conv::tap_is(
            #[trigger] taps[j],
            if k - 1 - j <= PROBE_HISTORY {
                Some(u)
            } else {
                None
            },
        )
}

fn prime(conv: &ShortConv, u: &Vec<u32>) -> (c: ShortConv)
    requires
        conv.wf(),
        conv.c == u.len(),
        conv.k - 1 + DEFAULT_REWIND <= usize::MAX,
    ensures
        primed(c, u@),
        same_taps(c, *conv),
{
    let w: Vec<u32> = conv.w.clone();
    proof {
        assert(w@ =~= conv.w@);
    }
    let mut c: ShortConv = ShortConv::new(w, conv.c, conv.k);
    let mut i: usize = 0;
    while i < PROBE_HISTORY
        invariant
            i <= PROBE_HISTORY,
            c.wf(),
            c.c == u.len(),
            c.k == conv.k,
            c.w@ == conv.w@,
            c.history().rows() >= PROBE_HISTORY + 1,
            c.history().length() == i,
            c.history().mark() == i,
            c.history().slack() >= 1,
            forall|q: int| 0 <= q < i ==> #[trigger] c.history().held()[q] == u@,
            forall|q: int| 0 <= q < i ==> #[trigger] c.history().held().dom().contains(q),
        decreases PROBE_HISTORY - i,
    {
        let _taps: Vec<Option<Vec<u32>>> = c.decode(u.as_slice());
        i += 1;
    }
    c
}

impl CpuProbe {
    pub open spec fn wf(&self) -> bool {
        forall|i: int|
            0 <= i < self.slots.len() ==> primed((#[trigger] self.slots[i]).kc, self.kr@) && primed(
                self.slots[i].vc,
                self.vr@,
            )
    }

    /// Sets a probe of `rows` rows up beside a layer, which is only read. The context is
    /// cut to what the layer's cache can hold before one more position.
    pub fn new(
        layer: &AttentionLayer,
        cache_rows: usize,
        rows: usize,
        context: usize,
        kr: Vec<u32>,
        vr: Vec<u32>,
    ) -> (p: CpuProbe)
        requires
            layer.wf(),
            layer.state.k_sconv.wf(),
            layer.state.v_sconv.wf(),
            1 <= rows <= 2,
            kr.len() == layer.state.k_sconv.c,
            vr.len() == layer.state.v_sconv.c,
            layer.state.k_sconv.k - 1 + DEFAULT_REWIND <= usize::MAX,
            layer.state.v_sconv.k - 1 + DEFAULT_REWIND <= usize::MAX,
        ensures
            p.wf(),
            p.slots.len() == rows,
            p.context == if context < cache_rows {
                context as int
            } else if cache_rows > 0 {
                cache_rows - 1
            } else {
                0
            },
            p.kr == kr,
            p.vr == vr,
            forall|i: int|
                0 <= i < rows ==> same_taps((#[trigger] p.slots[i]).kc, layer.state.k_sconv)
                    && same_taps(p.slots[i].vc, layer.state.v_sconv),
    {
        let top: usize = cache_rows.saturating_sub(1);
        let cut: usize = if context < top {
            context
        } else {
            top
        };
        let mut slots: Vec<CpuProbeSlot> = Vec::new();
        let mut i: usize = 0;
        while i < rows
            invariant
                i <= rows,
                layer.state.k_sconv.wf(),
                layer.state.v_sconv.wf(),
                kr.len() == layer.state.k_sconv.c,
                vr.len() == layer.state.v_sconv.c,
                layer.state.k_sconv.k - 1 + DEFAULT_REWIND <= usize::MAX,
                layer.state.v_sconv.k - 1 + DEFAULT_REWIND <= usize::MAX,
                slots.len() == i,
                forall|j: int|
                    0 <= j < i ==> primed((#[trigger] slots[j]).kc, kr@) && primed(slots[j].vc, vr@)
                        && same_taps(slots[j].kc, layer.state.k_sconv) && same_taps(
                        slots[j].vc,
                        layer.state.v_sconv,
                    ),
            decreases rows - i,
        {
            let kc: ShortConv = prime(&layer.state.k_sconv, &kr);
            let vc: ShortConv = prime(&layer.state.v_sconv, &vr);
            slots.push(CpuProbeSlot { kc, vc });
            i += 1;
        }
        CpuProbe { slots, context: cut, kr, vr }
    }

    /// One step of one row: the histories go back to where they stood and take the same
    /// input once more, so that every step reads the same.
    pub fn step(&mut self, row: usize) -> (taps: (Vec<Option<Vec<u32>>>, Vec<Option<Vec<u32>>>))
        requires
            old(self).wf(),
            row < old(self).slots.len(),
        ensures
            final(self).wf(),
            final(self).slots.len() == old(self).slots.len(),
            final(self).context == old(self).context,
            final(self).kr == old(self).kr,
            final(self).vr == old(self).vr,
            repeated_taps(taps.0@, old(self).kr@, old(self).slots[row as int].kc.k as int),
            repeated_taps(taps.1@, old(self).vr@, old(self).slots[row as int].vc.k as int),
            forall|i: int|
                0 <= i < final(self).slots.len() && i != row ==> #[trigger] final(self).slots[i]
                    == old(self).slots[i],
            same_taps(final(self).slots[row as int].kc, old(self).slots[row as int].kc),
            same_taps(final(self).slots[row as int].vc, old(self).slots[row as int].vc),
    {
        let ghost before = self.slots@;
        assert(primed(self.slots[row as int].kc, self.kr@));
        let k: Vec<Option<Vec<u32>>> = repeat(&mut self.slots[row].kc, &self.kr);
        let v: Vec<Option<Vec<u32>>> = repeat(&mut self.slots[row].vc, &self.vr);
        proof {
            assert forall|i: int| 0 <= i < self.slots.len() implies primed(
                (#[trigger] self.slots[i]).kc,
                self.kr@,
            ) && primed(self.slots[i].vc, self.vr@) by {
                assert(primed(before[i].kc, self.kr@));
            }
        }
        (k, v)
    }
}

fn repeat(c: &mut ShortConv, u: &Vec<u32>) -> (taps: Vec<Option<Vec<u32>>>)
    requires
        primed(*old(c), u@),
    ensures
        primed(*final(c), u@),
        same_taps(*final(c), *old(c)),
        repeated_taps(taps@, u@, old(c).k as int),
{
    c.truncate(PROBE_HISTORY);
    let ghost mid = *c;
    let taps: Vec<Option<Vec<u32>>> = c.decode(u.as_slice());
    proof {
        assert forall|j: int| 0 <= j < mid.k implies conv::tap_is(
            #[trigger] taps@[j],
            if mid.k - 1 - j <= PROBE_HISTORY {
                Some(u@)
            } else {
                None
            },
        ) by {
            let back = mid.k - 1 - j;
            assert(conv::tap_is(
                taps@[j],
                conv::tap_input(
                    mid.history().held(),
                    PROBE_HISTORY as int,
                    seq![u@],
                    0,
                    back,
                ),
            ));
            let q = PROBE_HISTORY - back;
            if 0 <= q < PROBE_HISTORY {
                assert(mid.history().held()[q] == u@) by {
                    assert(old(c).history().held()[q] == u@);
                    assert(old(c).history().held().dom().contains(q));
                }
            }
        }
    }
    taps
}

/// The experts of a measured row: routed ones first, each 43 places after the one before
/// and 17 after that of the row before, round and round; then every shared one.
pub proof fn law_probe_spreads_over_the_experts(row: int, j: int, top_k: int, routed: int)
    requires
        0 <= row,
        0 <= j,
        routed > 0,
    ensures
        j < top_k ==> 0 <= probe_id(row, j, top_k, routed) < routed,
        j < top_k ==> probe_id(row, j, top_k, routed) == (17 * row + 43 * j) % routed,
        j >= top_k ==> probe_id(row, j, top_k, routed) - routed == j - top_k,
{
}

/// A measured step reads the probe's own input at each of the last four positions and
/// nothing before them.
pub proof fn law_a_measured_step_reads_four_positions(
    taps: Seq<Option<Vec<u32>>>,
    u: Seq<u32>,
    k: int,
    j: int,
)
    requires
        repeated_taps(taps, u, k),
        0 <= j < k,
    ensures
        taps.len() == k,
        k - 1 - j <= 3 ==> taps[j] is Some && taps[j]->0@ == u,
        k - 1 - j > 3 ==> taps[j] is None,
{
    assert(conv::tap_is(
        taps[j],
        if k - 1 - j <= PROBE_HISTORY {
            Some(u)
        } else {
            None
        },
    ));
}

} // verus!
