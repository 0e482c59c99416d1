//! The device backend of the attention projections: two compiled models per layer.
use vstd::prelude::*;

use super::ov_moe::{self, bucket_rows};
use crate::id_set::IdSet;

verus! {

/// Counters of the attention backend.
#[derive(Clone, Copy, PartialEq, Eq, Structural, Debug)]
pub struct OvAttnStats {
    pub calls: u64,
    pub rows: u64,
    pub call_ns: u64,
    pub infer_ns: u64,
    pub device_ns: u64,
    pub compiles: u64,
    pub fallbacks: u64,
}

/// How a call starts.
#[derive(Clone, Copy, PartialEq, Eq, Structural, Debug)]
pub enum AttnStart {
    /// The layer is given up.
    Declined,
    /// The layer's two models are to be compiled first.
    Compile,
    /// The layer's models are there.
    Run,
}

/// The shape of a call.
#[derive(Clone, Copy, PartialEq, Eq, Structural, Debug)]
pub struct AttnShape {
    /// Rows that the call is padded to.
    pub padded: usize,
    /// Values per row.
    pub width: usize,
}

/// How one output is judged.
pub enum AttnOutput {
    /// The rows' values.
    Accepted(Vec<u32>),
    /// The output is no whole number of values per row: the layer is given up.
    Misshaped { report: bool },
}

/// The attention backend of a process.
pub struct OvAttn {
    pub buckets: Vec<usize>,
    pub compiled: IdSet,
    pub failed: IdSet,
    pub noted: IdSet,
    pub stats: OvAttnStats,
}

impl OvAttn {
    pub open spec fn wf(self) -> bool {
        &&& ov_moe::buckets_wf(self.buckets@)
        &&& self.compiled.wf()
        &&& self.failed.wf()
        &&& ov_moe::layer_ids(self.failed)
        &&& self.noted.wf()
    }

    pub open spec fn gave_up(self, lid: u32) -> bool {
        self.failed.has(lid as u64)
    }

    pub fn new(buckets: Vec<usize>) -> (o: OvAttn)
        requires
            ov_moe::buckets_wf(buckets@),
        ensures
            o.wf(),
            o.buckets == buckets,
            forall|l: u64|
                !(#[trigger] o.failed.has(l)) && !o.compiled.has(l) && !o.noted.has(l),
            o.stats == (OvAttnStats {
                calls: 0,
                rows: 0,
                call_ns: 0,
                infer_ns: 0,
                device_ns: 0,
                compiles: 0,
                fallbacks: 0,
            }),
    {
        OvAttn {
            buckets,
            compiled: IdSet::new(),
            failed: IdSet::new(),
            noted: IdSet::new(),
            stats: OvAttnStats {
                calls: 0,
                rows: 0,
                call_ns: 0,
                infer_ns: 0,
                device_ns: 0,
                compiles: 0,
                fallbacks: 0,
            },
        }
    }

    pub fn stats(&self) -> (s: OvAttnStats)
        ensures
            s == self.stats,
    {
        self.stats
    }

    /// How a call starts. A layer that is given up counts as a fallback.
    pub fn call_begin(&mut self, lid: u32) -> (s: AttnStart)
        requires
            old(self).wf(),
        ensures
            final(self).wf(),
            s == (if old(self).gave_up(lid) {
                AttnStart::Declined
            } else if old(self).compiled.has(lid as u64) {
                AttnStart::Run
            } else {
                AttnStart::Compile
            }),
            *final(self) == (OvAttn {
                stats: (OvAttnStats {
                    fallbacks: if s is Declined {
                        old(self).stats.fallbacks.wrapping_add(1)
                    } else {
                        old(self).stats.fallbacks
                    },
                    ..old(self).stats
                }),
                ..*old(self)
            }),
    {
        if self.failed.contains(lid as u64) {
            self.stats.fallbacks = self.stats.fallbacks.wrapping_add(1);
            AttnStart::Declined
        } else if self.compiled.contains(lid as u64) {
            AttnStart::Run
        } else {
            AttnStart::Compile
        }
    }

    fn give_up(&mut self, lid: u32) -> (report: bool)
        requires
            old(self).wf(),
        ensures
            final(self).wf(),
            report == !old(self).gave_up(lid),
            forall|l: u64|
                #[trigger] final(self).failed.has(l) <==> old(self).failed.has(l) || l == lid,
            *final(self) == (OvAttn { failed: final(self).failed, ..*old(self) }),
    {
        let r: bool = self.failed.insert(lid as u64);
        proof {
            assert forall|i: int| 0 <= i < self.failed.ids.len() implies (
            #[trigger] self.failed.ids[i]) <= u32::MAX by {
                let x = self.failed.ids[i];
                assert(self.failed.has(x));
                if x != lid as u64 {
                    assert(old(self).failed.has(x));
                    let j = choose|j: int|
                        0 <= j < old(self).failed.ids@.len() && old(self).failed.ids@[j] == x;
                    assert(old(self).failed.ids[j] <= u32::MAX);
                }
            }
        }
        r
    }

    /// Settles a layer's compilation: both models, or the layer is given up. Whether
    /// that is to be reported.
    pub fn compile_settled(&mut self, lid: u32, qkvr_ok: bool, o_ok: bool) -> (report: bool)
        requires
            old(self).wf(),
        ensures
            final(self).wf(),
            report == (!(qkvr_ok && o_ok) && !old(self).gave_up(lid)),
            qkvr_ok && o_ok ==> {
                &&& forall|l: u64|
                    #[trigger] final(self).compiled.has(l) <==> old(self).compiled.has(l) || l
                        == lid
                &&& *final(self) == (OvAttn {
                    compiled: final(self).compiled,
                    stats: (OvAttnStats {
                        compiles: old(self).stats.compiles.wrapping_add(2),
                        ..old(self).stats
                    }),
                    ..*old(self)
                })
            },
            !(qkvr_ok && o_ok) ==> {
                &&& forall|l: u64|
                    #[trigger] final(self).failed.has(l) <==> old(self).failed.has(l) || l == lid
                &&& *final(self) == (OvAttn { failed: final(self).failed, ..*old(self) })
            },
    {
        if qkvr_ok && o_ok {
            self.stats.compiles = self.stats.compiles.wrapping_add(2);
            self.compiled.insert(lid as u64);
            false
        } else {
            self.give_up(lid)
        }
    }

    /// A call takes the host kernel after a failed compilation.
    pub fn declined(&mut self)
        requires
            old(self).wf(),
        ensures
            final(self).wf(),
            *final(self) == (OvAttn {
                stats: (OvAttnStats {
                    fallbacks: old(self).stats.fallbacks.wrapping_add(1),
                    ..old(self).stats
                }),
                ..*old(self)
            }),
    {
        self.stats.fallbacks = self.stats.fallbacks.wrapping_add(1);
    }

    /// The shape of a call with `len` values in `rows` rows.
    pub fn shape(&self, len: usize, rows: usize) -> (s: AttnShape)
        requires
            self.wf(),
            rows <= usize::MAX - 31,
        ensures
            s.padded == ov_moe::bucket_for(self.buckets@, rows as int),
            s.padded >= rows,
            s.padded > 0,
            s.width == len / (if rows > 0 {
                rows
            } else {
                1
            }),
    {
        let padded: usize = bucket_rows(self.buckets.as_slice(), rows);
        proof {
            ov_moe::law_padding_is_the_smallest_shape(self.buckets@, rows as int);
            if rows == 0 {
                let b = ov_moe::bucket_for(self.buckets@, 0);
                let i = choose|i: int| 0 <= i < self.buckets@.len() && self.buckets@[i] == b as usize;
                assert(1 <= self.buckets@[i]);
            }
        }
        let width: usize = if rows > 0 {
            len / rows
        } else {
            len
        };
        AttnShape { padded, width }
    }

    /// The values of a call, padded with zeros to its shape.
    pub fn padded_input(&self, v: &Vec<u32>, rows: usize, s: AttnShape) -> (r: Vec<u32>)
        requires
            s.padded * s.width <= usize::MAX,
        ensures
            s.padded == rows ==> r@ =~= v@,
            s.padded != rows ==> r.len() == s.padded * s.width && forall|i: int|
                0 <= i < r.len() ==> #[trigger] r[i] == if i < v.len() {
                    v[i]
                } else {
                    0
                },
    {
        let mut r: Vec<u32> = v.clone();
        proof {
            assert(r@ =~= v@);
        }
        if s.padded != rows {
            r.resize(s.padded * s.width, 0);
        }
        r
    }

    /// Judges one output of a padded call: a whole number of values for each padded
    /// row, of which the call's own rows are kept; anything else gives the layer up.
    pub fn settle_output(&mut self, lid: u32, out: Vec<u32>, rows: usize, padded: usize) -> (r:
        AttnOutput)
        requires
            old(self).wf(),
            0 < padded,
            rows <= padded,
        ensures
            final(self).wf(),
            out.len() > 0 && out.len() % padded == 0 ==> {
                &&& r matches AttnOutput::Accepted(v) && v@ =~= out@.take(
                    (out.len() / padded) * rows,
                )
                &&& *final(self) == *old(self)
            },
            !(out.len() > 0 && out.len() % padded == 0) ==> {
                &&& r == (AttnOutput::Misshaped { report: !old(self).gave_up(lid) })
                &&& forall|l: u64|
                    #[trigger] final(self).failed.has(l) <==> old(self).failed.has(l) || l == lid
                &&& *final(self) == (OvAttn {
                    failed: final(self).failed,
                    stats: (OvAttnStats {
                        fallbacks: old(self).stats.fallbacks.wrapping_add(1),
                        ..old(self).stats
                    }),
                    ..*old(self)
                })
            },
    {
        if out.len() == 0 || out.len() % padded != 0 {
            self.stats.fallbacks = self.stats.fallbacks.wrapping_add(1);
            let report: bool = self.give_up(lid);
            return AttnOutput::Misshaped { report };
        }
        let width: usize = out.len() / padded;
        proof {
            vstd::arithmetic::div_mod::lemma_fundamental_div_mod(
                out.len() as int,
                padded as int,
            );
            assert(width * rows <= out.len() && width * padded == out.len() && width * rows
                <= width * padded) by (nonlinear_arith)
                requires
                    rows <= padded,
                    out.len() == padded * width + 0,
            ;
        }
        let mut kept = out;
        if padded != rows {
            kept.truncate(width * rows);
        }
        proof {
            if padded == rows {
                assert(out@.take(out.len() as int) =~= out@);
            }
        }
        AttnOutput::Accepted(kept)
    }

    /// A call failed on the device: it is a fallback, reported once per layer.
    pub fn call_failed(&mut self, lid: u32) -> (report: bool)
        requires
            old(self).wf(),
        ensures
            final(self).wf(),
            report == !old(self).noted.has(lid as u64),
            forall|l: u64|
                #[trigger] final(self).noted.has(l) <==> old(self).noted.has(l) || l == lid,
            *final(self) == (OvAttn {
                noted: final(self).noted,
                stats: (OvAttnStats {
                    fallbacks: old(self).stats.fallbacks.wrapping_add(1),
                    ..old(self).stats
                }),
                ..*old(self)
            }),
    {
        self.stats.fallbacks = self.stats.fallbacks.wrapping_add(1);
        self.noted.insert(lid as u64)
    }

    /// Counts an answered call.
    pub fn call_done(&mut self, rows: usize, ns: u64)
        requires
            old(self).wf(),
        ensures
            final(self).wf(),
            *final(self) == (OvAttn {
                stats: (OvAttnStats {
                    calls: old(self).stats.calls.wrapping_add(1),
                    rows: old(self).stats.rows.wrapping_add(rows as u64),
                    call_ns: old(self).stats.call_ns.wrapping_add(ns),
                    ..old(self).stats
                }),
                ..*old(self)
            }),
    {
        self.stats.calls = self.stats.calls.wrapping_add(1);
        self.stats.rows = self.stats.rows.wrapping_add(rows as u64);
        self.stats.call_ns = self.stats.call_ns.wrapping_add(ns);
    }

    /// Counts the time inside a profiled inference.
    pub fn infer_done(&mut self, infer_ns: u64, device_ns: u64)
        requires
            old(self).wf(),
        ensures
            final(self).wf(),
            *final(self) == (OvAttn {
                stats: (OvAttnStats {
                    infer_ns: old(self).stats.infer_ns.wrapping_add(infer_ns),
                    device_ns: old(self).stats.device_ns.wrapping_add(device_ns),
                    ..old(self).stats
                }),
                ..*old(self)
            }),
    {
        self.stats.infer_ns = self.stats.infer_ns.wrapping_add(infer_ns);
        self.stats.device_ns = self.stats.device_ns.wrapping_add(device_ns);
    }

    /// Takes a warm-up's calls back out of the counters.
    pub fn warm_end(&mut self, before: OvAttnStats)
        requires
            old(self).wf(),
        ensures
            final(self).wf(),
            *final(self) == (OvAttn {
                stats: (OvAttnStats {
                    calls: before.calls,
                    rows: before.rows,
                    call_ns: before.call_ns,
                    ..old(self).stats
                }),
                ..*old(self)
            }),
    {
        self.stats.calls = before.calls;
        self.stats.rows = before.rows;
        self.stats.call_ns = before.call_ns;
    }

    /// The layers that are given up, ascending.
    pub fn failed_layers(&self) -> (v: Vec<u32>)
        requires
            self.wf(),
        ensures
            forall|i: int, j: int| 0 <= i < j < v.len() ==> (#[trigger] v[i]) < (#[trigger] v[j]),
            forall|l: u32| #[trigger] v@.contains(l) <==> self.gave_up(l),
    {
        let mut v: Vec<u32> = Vec::new();
        let mut i: usize = 0;
        while i < self.failed.ids.len()
            invariant
                self.wf(),
                i <= self.failed.ids.len(),
                v.len() == i,
                forall|x: int| 0 <= x < i ==> #[trigger] v[x] == self.failed.ids[x],
            decreases self.failed.ids.len() - i,
        {
            v.push(self.failed.ids[i] as u32);
            i += 1;
        }
        proof {
            assert forall|i: int, j: int| 0 <= i < j < v.len() implies (#[trigger] v[i]) < (
            #[trigger] v[j]) by {
                assert(self.failed.ids[i] < self.failed.ids[j]);
            }
            assert forall|l: u32| #[trigger] v@.contains(l) <==> self.gave_up(l) by {
                if v@.contains(l) {
                    let x = choose|x: int| 0 <= x < v@.len() && v@[x] == l;
                    assert(self.failed.ids@[x] == l as u64);
                }
                if self.gave_up(l) {
                    let x = choose|x: int|
                        0 <= x < self.failed.ids@.len() && self.failed.ids@[x] == l as u64;
                    assert(v@[x] == l);
                }
            }
        }
        v
    }
}

/// What a call on a compiled layer comes to.
pub enum AttnOutcome {
    /// Each output, cut to the call's own rows.
    Done(Vec<Vec<u32>>),
    /// The device refused the input, the run or an output.
    Failed { report: bool },
    /// An output is not a whole number of values per padded row.
    Misshaped { report: bool },
}

/// A whole number of values for each padded row.
pub open spec fn whole_rows(out: Option<Vec<u32>>, padded: int) -> bool {
    out matches Some(v) && v.len() > 0 && v.len() as int % padded == 0
}

/// The first output that is missing or misshaped.
pub open spec fn first_bad(outs: Seq<Option<Vec<u32>>>, padded: int, from: int) -> int
    decreases outs.len() - from,
{
    if from < 0 || from >= outs.len() {
        outs.len() as int
    } else if !whole_rows(outs[from], padded) {
        from
    } else {
        first_bad(outs, padded, from + 1)
    }
}

impl OvAttn {
    /// Settles a call on a compiled layer. `ran` says that the input was taken and the
    /// run ended; the outputs are looked at in order, and the first bad one decides.
    pub fn call_settled(
        &mut self,
        lid: u32,
        rows: usize,
        padded: usize,
        ran: bool,
        outs: &Vec<Option<Vec<u32>>>,
        ns: u64,
    ) -> (r: AttnOutcome)
        requires
            old(self).wf(),
            0 < padded,
            rows <= padded,
        ensures
            final(self).wf(),
            final(self).buckets == old(self).buckets,
            final(self).compiled == old(self).compiled,
            ({
                let bad = first_bad(outs@, padded as int, 0);
                &&& r is Done <==> ran && bad == outs.len()
                &&& r is Failed <==> !ran || (bad < outs.len() && outs[bad] is None)
                &&& r matches AttnOutcome::Done(v) ==> {
                    &&& v.len() == outs.len()
                    &&& forall|i: int|
                        0 <= i < v.len() ==> (#[trigger] v[i])@ == (outs[i]->0)@.take(
                            (outs[i]->0.len() as int / padded as int) * rows,
                        )
                }
            }),
            r matches AttnOutcome::Failed { report } ==> report == !old(self).noted.has(lid as u64),
            r matches AttnOutcome::Misshaped { report } ==> report == !old(self).gave_up(lid),
            forall|l: u64|
                #[trigger] final(self).failed.has(l) <==> old(self).failed.has(l) || (l == lid
                    && r is Misshaped),
            forall|l: u64|
                #[trigger] final(self).noted.has(l) <==> old(self).noted.has(l) || (l == lid
                    && r is Failed),
            r is Done ==> final(self).stats == (OvAttnStats {
                calls: old(self).stats.calls.wrapping_add(1),
                rows: old(self).stats.rows.wrapping_add(rows as u64),
                call_ns: old(self).stats.call_ns.wrapping_add(ns),
                ..old(self).stats
            }),
            !(r is Done) ==> final(self).stats == (OvAttnStats {
                fallbacks: old(self).stats.fallbacks.wrapping_add(1),
                ..old(self).stats
            }),
    {
        if !ran {
            let report: bool = self.call_failed(lid);
            return AttnOutcome::Failed { report };
        }
        let mut done: Vec<Vec<u32>> = Vec::new();
        let mut i: usize = 0;
        while i < outs.len()
            invariant
                i <= outs.len(),
                *self == *old(self),
                old(self).wf(),
                0 < padded,
                rows <= padded,
                ran,
                first_bad(outs@, padded as int, 0) == first_bad(outs@, padded as int, i as int),
                done.len() == i,
                forall|j: int|
                    0 <= j < i ==> (#[trigger] done[j])@ == (outs[j]->0)@.take(
                        (outs[j]->0.len() as int / padded as int) * rows,
                    ),
            decreases outs.len() - i,
        {
            match &outs[i] {
                None => {
                    let report: bool = self.call_failed(lid);
                    return AttnOutcome::Failed { report };
                },
                Some(v) => {
                    let copy: Vec<u32> = v.clone();
                    proof {
                        assert(copy@ =~= v@);
                    }
                    match self.settle_output(lid, copy, rows, padded) {
                        AttnOutput::Misshaped { report } => {
                            return AttnOutcome::Misshaped { report };
                        },
                        AttnOutput::Accepted(kept) => {
                            done.push(kept);
                        },
                    }
                },
            }
            i += 1;
        }
        self.call_done(rows, ns);
        AttnOutcome::Done(done)
    }
}

/// An output is whole where it has values for each padded row, equally many.
pub proof fn law_whole_outputs(out: Option<Vec<u32>>, padded: int)
    requires
        padded > 0,
    ensures
        whole_rows(out, padded) <==> match out {
            Some(v) => v.len() > 0 && exists|w: int| #[trigger] (w * padded) == v.len(),
            None => false,
        },
{
    if whole_rows(out, padded) {
        let n = out->0.len() as int;
        vstd::arithmetic::div_mod::lemma_fundamental_div_mod(n, padded);
        assert((n / padded) * padded == n) by (nonlinear_arith)
            requires
                n == padded * (n / padded) + n % padded,
                n % padded == 0,
        ;
    }
    if out is Some && exists|w: int| #[trigger] (w * padded) == out->0.len() {
        let w = choose|w: int| #[trigger] (w * padded) == out->0.len();
        vstd::arithmetic::div_mod::lemma_mod_multiples_basic(w, padded);
    }
}

/// The first output that is not whole: every one before it is.
pub proof fn law_first_broken_output(outs: Seq<Option<Vec<u32>>>, padded: int, from: int)
    requires
        0 <= from <= outs.len(),
    ensures
        from <= first_bad(outs, padded, from) <= outs.len(),
        first_bad(outs, padded, from) < outs.len() ==> !whole_rows(
            outs[first_bad(outs, padded, from)],
            padded,
        ),
        forall|i: int|
            from <= i < first_bad(outs, padded, from) ==> whole_rows(#[trigger] outs[i], padded),
    decreases outs.len() - from,
{
    if from < outs.len() && whole_rows(outs[from], padded) {
        law_first_broken_output(outs, padded, from + 1);
    }
}

} // verus!
