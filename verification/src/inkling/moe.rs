//! One mixture-of-experts layer: what it holds, which backend serves a call, which
//! experts a token touches, and how their bytes are read and cached.
use vstd::prelude::*;

use std::sync::Arc;

use super::expert_cache::{self, ExpertCache, ReadBuffer};
use super::gate::GateOut;
use super::moe_block;
use crate::ranges::{self, chunks};
use crate::ranking::{self, sort_descending};
use crate::text::{self, chars_of, same_text, switch, switch_default_on, text_of, trim};

verus! {

/// Rows per block of a batch.
pub const ROW_BLOCK: usize = 128;

/// Experts that are read together when a cache is filled ahead of use.
pub const PREWARM_COHORT: usize = 16;

/// Bits of 1.0.
pub const ONE: u32 = 0x3f80_0000;

// -------------------------------------------------------------------- switches

/// Always compute straight off a mapped expert.
pub fn seq_reads(setting: Option<&str>) -> (on: bool)
    ensures
        on == text::switched_on(setting),
{
    switch(setting)
}

/// Keep the buffers of whole-expert reads for reuse.
pub fn reuse_read_buffers(setting: Option<&str>) -> (on: bool)
    ensures
        on == text::switched_on(setting),
{
    switch(setting)
}

/// Overlap each expert's read with the others' compute.
pub fn pipeline_reads(setting: Option<&str>) -> (on: bool)
    ensures
        on == text::switched_on(setting),
{
    switch(setting)
}

/// Read each expert of a batch whole. Takes reusable buffers and no direct mapped
/// execution.
pub fn prefill_reads(setting: Option<&str>, reuse: bool, seq: bool) -> (on: bool)
    ensures
        on == (text::switched_on(setting) && reuse && !seq),
{
    switch(setting) && reuse && !seq
}

/// Skip the read-ahead hints before whole-expert reads.
pub fn skip_bulk_prefetch(setting: Option<&str>) -> (on: bool)
    ensures
        on == text::switched_on(setting),
{
    switch(setting)
}

/// Run a token's experts concurrently, unless the setting asks for one after
/// another.
pub fn par_experts(serial_setting: Option<&str>) -> (on: bool)
    ensures
        on == !text::switched_on(serial_setting),
{
    !switch(serial_setting)
}

/// Run an expert's rows in one pass. On unless switched off.
pub fn row_gemm(setting: Option<&str>) -> (on: bool)
    ensures
        on == text::stays_on(setting),
{
    switch_default_on(setting)
}

/// Whether a layer that fails the check on its highest expert ids leaves the device.
pub fn check_enforced(setting: Option<&str>) -> (on: bool)
    ensures
        on == (setting matches Some(s) && text::trimmed(s@) == "enforce"@),
{
    match setting {
        None => false,
        Some(s) => {
            let all: Vec<char> = chars_of(s);
            let word: Vec<char> = trim(all.as_slice());
            let word: String = text_of(word.as_slice());
            same_text(word.as_str(), "enforce")
        },
    }
}

/// The read switches of a process.
#[derive(Clone, Copy, PartialEq, Eq, Structural, Debug)]
pub struct ReadSwitches {
    pub seq: bool,
    pub reuse: bool,
    pub pipeline: bool,
    pub skip_prefetch: bool,
    pub par: bool,
}

impl ReadSwitches {
    /// Overlapped reads can serve a decode step.
    pub open spec fn overlaps(self) -> bool {
        self.pipeline && self.reuse && !self.seq && self.par
    }
}

/// Counts layer calls that overlapped reads with compute.
#[derive(Clone, Copy, PartialEq, Eq, Structural, Debug)]
pub struct PipelineCount {
    pub layers: u64,
}

impl PipelineCount {
    pub fn new() -> (c: Self)
        ensures
            c.layers == 0,
    {
        PipelineCount { layers: 0 }
    }

    /// One more call; the counter wraps around.
    pub fn note(&mut self)
        ensures
            final(self).layers == old(self).layers.wrapping_add(1),
    {
        self.layers = self.layers.wrapping_add(1);
    }
}

/// How many layer calls overlapped reads with compute.
pub fn pipeline_read_layer_count(count: &PipelineCount) -> (n: u64)
    ensures
        n == count.layers,
{
    count.layers
}

// ----------------------------------------------------------------------- layer

/// Sizes of a layer's router and expert tables.
#[derive(Clone, Copy, PartialEq, Eq, Structural, Debug)]
pub struct MoeWeights {
    /// Entries of the router matrix `[n_routed + n_shared, hidden]`.
    pub router_w: usize,
    /// Entries of the router bias `[n_routed]`.
    pub router_bias: usize,
    /// Routed experts held here.
    pub experts: usize,
    /// Shared experts held here.
    pub shared: usize,
}

/// Why a layer cannot be built.
#[derive(Clone, Copy, PartialEq, Eq, Structural, Debug)]
pub enum MoeError {
    NoHidden,
    NoRoutedExperts,
    RouterShape { len: usize, n_routed: usize },
    TopK { top_k: usize, n_routed: usize },
    RoutedCount { held: usize, n_routed: usize },
    SharedCount { held: usize, n_shared: usize },
}

/// The first reason, in order, why a layer cannot be built.
pub open spec fn moe_fault(hidden: usize, top_k: usize, w: MoeWeights) -> Option<MoeError> {
    if hidden == 0 {
        Some(MoeError::NoHidden)
    } else if w.router_bias == 0 {
        Some(MoeError::NoRoutedExperts)
    } else if w.router_w < w.router_bias * hidden || w.router_w % hidden != 0 {
        Some(MoeError::RouterShape { len: w.router_w, n_routed: w.router_bias })
    } else if top_k < 1 || top_k > w.router_bias {
        Some(MoeError::TopK { top_k, n_routed: w.router_bias })
    } else if w.experts == 0 && w.shared == 0 {
        None
    } else if w.experts != w.router_bias {
        Some(MoeError::RoutedCount { held: w.experts, n_routed: w.router_bias })
    } else if w.shared != w.router_w / hidden - w.router_bias {
        Some(
            MoeError::SharedCount {
                held: w.shared,
                n_shared: (w.router_w / hidden - w.router_bias) as usize,
            },
        )
    } else {
        None
    }
}

proof fn lemma_router_rows(len: int, n: int, hidden: int)
    requires
        hidden > 0,
        n >= 0,
        len >= n * hidden,
        len % hidden == 0,
    ensures
        len / hidden >= n,
        len == (len / hidden) * hidden,
{
    vstd::arithmetic::div_mod::lemma_fundamental_div_mod(len, hidden);
    let q = len / hidden;
    assert(hidden * q == q * hidden) by (nonlinear_arith);
    assert(q >= n) by (nonlinear_arith)
        requires
            q * hidden >= n * hidden,
            hidden > 0,
    ;
}

/// Checks the sizes of a layer.
pub fn check_moe(hidden: usize, top_k: usize, w: MoeWeights) -> (r: Result<(), MoeError>)
    ensures
        r is Ok <==> moe_fault(hidden, top_k, w) is None,
        r matches Err(e) ==> moe_fault(hidden, top_k, w) == Some(e),
{
    if hidden == 0 {
        return Err(MoeError::NoHidden);
    }
    if w.router_bias == 0 {
        return Err(MoeError::NoRoutedExperts);
    }
    proof {
        vstd::arithmetic::mul::lemma_mul_upper_bound(
            w.router_bias as int,
            usize::MAX as int,
            hidden as int,
            usize::MAX as int,
        );
        assert(usize::MAX * usize::MAX <= u128::MAX) by (nonlinear_arith)
            requires
                usize::MAX <= 0xffff_ffff_ffff_ffff,
        ;
    }
    if (w.router_w as u128) < w.router_bias as u128 * hidden as u128 || w.router_w % hidden != 0 {
        return Err(MoeError::RouterShape { len: w.router_w, n_routed: w.router_bias });
    }
    if top_k < 1 || top_k > w.router_bias {
        return Err(MoeError::TopK { top_k, n_routed: w.router_bias });
    }
    if w.experts == 0 && w.shared == 0 {
        return Ok(());
    }
    if w.experts != w.router_bias {
        return Err(MoeError::RoutedCount { held: w.experts, n_routed: w.router_bias });
    }
    proof {
        lemma_router_rows(w.router_w as int, w.router_bias as int, hidden as int);
    }
    let n_shared: usize = w.router_w / hidden - w.router_bias;
    if w.shared != n_shared {
        return Err(MoeError::SharedCount { held: w.shared, n_shared });
    }
    Ok(())
}

/// One layer: its router's dimensions, the experts it holds, the backends that are
/// attached to it and its expert cache.
pub struct MoeLayer {
    pub hidden: usize,
    pub n_routed: usize,
    pub n_shared: usize,
    pub top_k: usize,
    pub inter: usize,
    /// Bits of the route scale.
    pub route_scale: u32,
    /// Routed and shared experts held here: all of them, or none.
    pub local_routed: usize,
    pub local_shared: usize,
    /// The layer number under which the expert workers serve this layer.
    pub remote: Option<u32>,
    /// The layer number of the per-expert device backend.
    pub ov: Option<u32>,
    /// The layer number of the fused device backend, and the experts per row that
    /// its model takes.
    pub ov_moe: Option<(u32, usize)>,
    pub expert_cache: ExpertCache,
}

/// Which way a call takes.
#[derive(Clone, Copy, PartialEq, Eq, Structural, Debug)]
pub enum Path {
    /// To the expert workers.
    Remote,
    /// Through the fused device model; its refusal asks for the next path.
    Fused,
    /// Through one device model per expert.
    PerExpert,
    /// Through the host kernels.
    Host,
    /// Nothing can serve the call.
    NoExperts,
}

/// What filling the cache ahead of use brought.
pub open spec fn loaded_count(done: Seq<usize>) -> nat
    decreases done.len(),
{
    if done.len() == 0 {
        0
    } else {
        loaded_count(done.drop_last()) + if done.last() > 0 {
            1nat
        } else {
            0
        }
    }
}

pub open spec fn loaded_bytes(done: Seq<usize>) -> nat
    decreases done.len(),
{
    if done.len() == 0 {
        0
    } else {
        loaded_bytes(done.drop_last()) + done.last() as nat
    }
}

/// A list of experts with their weights.
pub open spec fn terms_are(list: Seq<(usize, u32)>, terms: Seq<(int, u32)>) -> bool {
    &&& list.len() == terms.len()
    &&& forall|j: int|
        0 <= j < list.len() ==> ((#[trigger] list[j]).0 as int, list[j].1) == terms[j]
}

/// `after` is `before` with the cache history of its experts forgotten; what the cache
/// holds stays. A cache without capacity has no history.
pub open spec fn history_reset(before: MoeLayer, after: MoeLayer) -> bool {
    let (b, a) = (before.expert_cache, after.expert_cache);
    &&& after == (MoeLayer { expert_cache: a, ..before })
    &&& a.same_policy(b)
    &&& a.entries == b.entries
    &&& b.stats.capacity_bytes == 0 ==> a == b
    &&& b.stats.capacity_bytes > 0 ==> {
        &&& a.clock == 0
        &&& a.frequency@ == Seq::new(b.frequency@.len(), |i: int| 0u64)
        &&& a.last@ == Seq::new(b.frequency@.len(), |i: int| 0u64)
        &&& a.stats == (expert_cache::ExpertCacheStats {
            history_resets: b.stats.history_resets.wrapping_add(1),
            ..b.stats
        })
    }
}

impl MoeLayer {
    pub open spec fn wf(self) -> bool {
        &&& self.hidden > 0
        &&& 1 <= self.top_k <= self.n_routed
        &&& (self.n_routed + self.n_shared) * self.hidden <= usize::MAX
        &&& (self.local_routed == 0 && self.local_shared == 0) || (self.local_routed
            == self.n_routed && self.local_shared == self.n_shared)
        &&& self.expert_cache.wf()
        &&& self.expert_cache.frequency.len() == self.n_routed
    }

    /// Experts per row of this layer's device calls.
    pub open spec fn experts_per_row(self) -> int {
        self.top_k + self.local_shared
    }

    /// Builds a layer. The counts of routed and shared experts come from the
    /// router; its cache has the configured size where the layer holds experts and
    /// overlapped reads can serve it, else none.
    pub fn new(
        hidden: usize,
        inter: usize,
        top_k: usize,
        route_scale: u32,
        w: MoeWeights,
        switches: ReadSwitches,
        cache_setting: Option<&str>,
        decay_setting: Option<&str>,
        recent_ties: bool,
    ) -> (l: MoeLayer)
        requires
            moe_fault(hidden, top_k, w) is None,
            expert_cache::configured(expert_cache::setting_text(cache_setting)) <= usize::MAX,
        ensures
            l.wf(),
            l.hidden == hidden,
            l.n_routed == w.router_bias,
            l.n_shared == w.router_w / hidden - w.router_bias,
            l.top_k == top_k,
            l.inter == inter,
            l.route_scale == route_scale,
            l.local_routed == w.experts,
            l.local_shared == w.shared,
            l.remote is None,
            l.ov is None,
            l.ov_moe is None,
            l.expert_cache.stats == expert_cache::unused_stats(
                if (w.experts > 0 || w.shared > 0) && switches.overlaps() {
                    expert_cache::configured(expert_cache::setting_text(cache_setting)) as usize
                } else {
                    0
                },
            ),
            l.expert_cache.entries.len() == 0,
            l.expert_cache.clock == 0,
            l.expert_cache.frequency@ =~= Seq::new(w.router_bias as nat, |i: int| 0u64),
            l.expert_cache.last@ =~= Seq::new(w.router_bias as nat, |i: int| 0u64),
            l.expert_cache.decay_requests == expert_cache::decay_of(
                expert_cache::setting_text(decay_setting),
            ),
            l.expert_cache.recent_ties == recent_ties,
    {
        proof {
            lemma_router_rows(w.router_w as int, w.router_bias as int, hidden as int);
            let rows = w.router_w as int / hidden as int;
            assert(rows * hidden == w.router_w);
        }
        let n_shared: usize = w.router_w / hidden - w.router_bias;
        let local: bool = w.experts != 0 || w.shared != 0;
        let capacity: usize = if local && switches.pipeline && switches.reuse && !switches.seq
            && switches.par {
            ExpertCache::configured_bytes(cache_setting) as usize
        } else {
            0
        };
        MoeLayer {
            hidden,
            n_routed: w.router_bias,
            n_shared,
            top_k,
            inter,
            route_scale,
            local_routed: w.experts,
            local_shared: w.shared,
            remote: None,
            ov: None,
            ov_moe: None,
            expert_cache: ExpertCache::new(w.router_bias, capacity, decay_setting, recent_ties),
        }
    }

    /// The layer number under which the expert workers serve this layer.
    pub fn remote(&self) -> (r: Option<u32>)
        ensures
            r == self.remote,
    {
        self.remote
    }

    /// The layer number of the per-expert device backend.
    pub fn ov(&self) -> (r: Option<u32>)
        ensures
            r == self.ov,
    {
        self.ov
    }

    /// The counters of the layer's cache.
    pub fn expert_cache_stats(&self) -> (s: expert_cache::ExpertCacheStats)
        ensures
            s == self.expert_cache.stats,
    {
        self.expert_cache.stats
    }

    /// What the expert workers are asked for: per row its routed experts in the order of
    /// the selection, and the shared ones behind them.
    pub fn remote_rows(&self, gates: &[GateOut]) -> (r: Vec<Vec<(usize, u32)>>)
        requires
            self.wf(),
            moe_block::gates_fit(
                gates@,
                self.n_routed as int,
                self.n_shared as int,
                self.top_k as int,
            ),
        ensures
            r.len() == gates.len(),
            forall|i: int|
                0 <= i < r.len() ==> terms_are(
                    (#[trigger] r[i])@,
                    moe_block::token_terms(gates[i], self.n_routed as int),
                ),
    {
        let mut r: Vec<Vec<(usize, u32)>> = Vec::new();
        let mut i: usize = 0;
        while i < gates.len()
            invariant
                i <= gates.len(),
                self.wf(),
                moe_block::gates_fit(
                    gates@,
                    self.n_routed as int,
                    self.n_shared as int,
                    self.top_k as int,
                ),
                r.len() == i,
                forall|x: int|
                    0 <= x < i ==> terms_are(
                        (#[trigger] r[x])@,
                        moe_block::token_terms(gates[x], self.n_routed as int),
                    ),
            decreases gates.len() - i,
        {
            r.push(self.token_experts(&gates[i]));
            i += 1;
        }
        r
    }

    /// The layer holds its experts here.
    pub fn has_local_experts(&self) -> (b: bool)
        ensures
            b == (self.local_routed > 0),
    {
        self.local_routed > 0
    }

    /// Serves every expert of this layer on the workers. The client's dimensions
    /// have to be the layer's.
    pub fn attach_remote(&mut self, layer: u32, hidden: usize, n_routed: usize, n_shared: usize)
        requires
            old(self).wf(),
            hidden == old(self).hidden,
            n_routed == old(self).n_routed,
            n_shared == old(self).n_shared,
        ensures
            *final(self) == (MoeLayer { remote: Some(layer), ..*old(self) }),
    {
        self.remote = Some(layer);
    }

    pub fn attach_ov(&mut self, layer: u32)
        ensures
            *final(self) == (MoeLayer { ov: Some(layer), ..*old(self) }),
    {
        self.ov = Some(layer);
    }

    pub fn attach_ov_moe(&mut self, layer: u32, k_total: usize)
        ensures
            *final(self) == (MoeLayer { ov_moe: Some((layer, k_total)), ..*old(self) }),
    {
        self.ov_moe = Some((layer, k_total));
    }

    /// The path of a call for one token. `fused_declined` says that the fused
    /// backend was asked and gave no answer.
    pub fn forward_path(&self, fused_declined: bool) -> (p: Path)
        ensures
            p == (if self.remote is Some {
                Path::Remote
            } else if self.local_routed == 0 {
                Path::NoExperts
            } else if self.ov_moe is Some && !fused_declined {
                Path::Fused
            } else if self.ov is Some {
                Path::PerExpert
            } else {
                Path::Host
            }),
    {
        if self.remote.is_some() {
            Path::Remote
        } else if self.local_routed == 0 {
            Path::NoExperts
        } else if self.ov_moe.is_some() && !fused_declined {
            Path::Fused
        } else if self.ov.is_some() {
            Path::PerExpert
        } else {
            Path::Host
        }
    }

    /// The path of a call for a batch: device backends are asked before the layer
    /// looks for experts of its own.
    pub fn forward_batch_path(&self, fused_declined: bool) -> (p: Path)
        ensures
            p == (if self.remote is Some {
                Path::Remote
            } else if self.ov_moe is Some && !fused_declined {
                Path::Fused
            } else if self.ov is Some {
                Path::PerExpert
            } else if self.local_routed == 0 {
                Path::NoExperts
            } else {
                Path::Host
            }),
    {
        if self.remote.is_some() {
            Path::Remote
        } else if self.ov_moe.is_some() && !fused_declined {
            Path::Fused
        } else if self.ov.is_some() {
            Path::PerExpert
        } else if self.local_routed == 0 {
            Path::NoExperts
        } else {
            Path::Host
        }
    }

    /// The blocks of rows that a batch is computed in.
    pub fn row_blocks(&self, rows: usize) -> (b: Vec<(usize, usize)>)
        ensures
            ranges::is_chunks(b@, rows as int, ROW_BLOCK as int),
            ranges::is_chunks(b@, rows as int, 128),
    {
        chunks(rows, ROW_BLOCK)
    }

    /// The experts of one token with their weights, in the order in which they add
    /// up: the routed ones in gate order, then the shared ones under the ids after
    /// the routed ones.
    pub fn token_experts(&self, gate: &GateOut) -> (t: Vec<(usize, u32)>)
        requires
            self.wf(),
            moe_block::gate_fits(
                *gate,
                self.n_routed as int,
                self.n_shared as int,
                self.top_k as int,
            ),
        ensures
            t.len() == moe_block::token_terms(*gate, self.n_routed as int).len(),
            forall|j: int|
                0 <= j < t.len() ==> ((#[trigger] t[j]).0 as int, t[j].1)
                    == moe_block::token_terms(*gate, self.n_routed as int)[j],
    {
        let mut t: Vec<(usize, u32)> = Vec::new();
        let mut j: usize = 0;
        while j < gate.idx.len()
            invariant
                j <= gate.idx.len(),
                gate.idx.len() == gate.w.len(),
                t.len() == j,
                forall|x: int|
                    0 <= x < j ==> ((#[trigger] t[x]).0 as int, t[x].1) == moe_block::token_terms(
                        *gate,
                        self.n_routed as int,
                    )[x],
            decreases gate.idx.len() - j,
        {
            t.push((gate.idx[j], gate.w[j]));
            j += 1;
        }
        let mut s: usize = 0;
        while s < gate.gammas.len()
            invariant
                self.wf(),
                gate.gammas.len() == self.n_shared,
                s <= gate.gammas.len(),
                t.len() == gate.idx.len() + s,
                forall|x: int|
                    0 <= x < t.len() ==> ((#[trigger] t[x]).0 as int, t[x].1)
                        == moe_block::token_terms(*gate, self.n_routed as int)[x],
            decreases gate.gammas.len() - s,
        {
            proof {
                self.lemma_ids_fit();
            }
            t.push((self.n_routed + s, gate.gammas[s]));
            s += 1;
        }
        t
    }

    pub proof fn lemma_ids_fit(self)
        requires
            self.wf(),
        ensures
            self.n_routed + self.n_shared <= usize::MAX,
    {
        let n = self.n_routed + self.n_shared;
        assert(n <= n * self.hidden) by (nonlinear_arith)
            requires
                self.hidden >= 1,
                n >= 0,
        ;
    }

    /// The experts of a token as the devices address them: the routed ones in gate
    /// order, then those held of the shared ones.
    pub fn device_ids(&self, gate: &GateOut) -> (ids: Vec<usize>)
        requires
            self.wf(),
        ensures
            ids@ =~= gate.idx@ + Seq::new(
                self.local_shared as nat,
                |s: int| (self.n_routed + s) as usize,
            ),
    {
        let mut ids: Vec<usize> = gate.idx.clone();
        proof {
            assert(ids@ =~= gate.idx@);
        }
        let mut s: usize = 0;
        while s < self.local_shared
            invariant
                self.wf(),
                s <= self.local_shared,
                ids@ =~= gate.idx@ + Seq::new(s as nat, |x: int| (self.n_routed + x) as usize),
            decreases self.local_shared - s,
        {
            proof {
                self.lemma_ids_fit();
            }
            ids.push(self.n_routed + s);
            s += 1;
        }
        ids
    }

    /// The last routed experts and the shared ones, on which a device is compared
    /// with the host.
    pub fn high_ids(&self) -> (ids: Vec<usize>)
        requires
            self.wf(),
        ensures
            ids@ =~= Seq::new(
                (self.top_k + self.local_shared) as nat,
                |j: int| (self.n_routed - self.top_k + j) as usize,
            ),
    {
        let mut ids: Vec<usize> = Vec::new();
        let mut j: usize = self.n_routed - self.top_k;
        proof {
            self.lemma_ids_fit();
        }
        while j < self.n_routed + self.local_shared
            invariant
                self.wf(),
                self.n_routed + self.local_shared <= usize::MAX,
                self.n_routed - self.top_k <= j <= self.n_routed + self.local_shared,
                ids.len() == j - (self.n_routed - self.top_k),
                forall|x: int|
                    0 <= x < ids.len() ==> #[trigger] ids[x] == self.n_routed - self.top_k + x,
            decreases self.n_routed + self.local_shared - j,
        {
            ids.push(j);
            j += 1;
        }
        ids
    }

    /// Whether the fused backend can serve this layer: nothing without one; else
    /// whether its model takes as many experts per row as the layer selects.
    pub fn fused_matches(&self) -> (r: Option<bool>)
        requires
            self.wf(),
        ensures
            r == match self.ov_moe {
                None => None::<bool>,
                Some((_, k)) => Some(k as int == self.experts_per_row()),
            },
    {
        proof {
            self.lemma_ids_fit();
        }
        match self.ov_moe {
            None => None,
            Some((_, k)) => Some(k == self.top_k + self.local_shared),
        }
    }

    /// Whether the host can check the device on the highest expert ids.
    pub fn host_can_check(&self) -> (b: bool)
        requires
            self.wf(),
        ensures
            b == (self.ov_moe is Some && self.ov is None && self.local_routed > 0),
    {
        self.ov_moe.is_some() && self.ov.is_none() && self.local_routed > 0
    }

    /// The experts that a warm-up compiles one by one; nothing where the fused
    /// backend serves the layer or no backend is attached.
    pub fn warm_keys(&self) -> (keys: Option<Vec<(u32, u32)>>)
        requires
            self.wf(),
            self.n_routed + self.n_shared <= u32::MAX,
        ensures
            keys is Some <==> self.ov_moe is None && self.ov is Some,
            keys matches Some(k) ==> k@ =~= Seq::new(
                (self.local_routed + self.local_shared) as nat,
                |e: int| (self.ov->0, e as u32),
            ),
    {
        if self.ov_moe.is_some() {
            return None;
        }
        match self.ov {
            None => None,
            Some(layer) => {
                let n: u32 = (self.local_routed + self.local_shared) as u32;
                let mut keys: Vec<(u32, u32)> = Vec::new();
                let mut e: u32 = 0;
                while e < n
                    invariant
                        e <= n,
                        keys@ =~= Seq::new(e as nat, |x: int| (layer, x as u32)),
                    decreases n - e,
                {
                    keys.push((layer, e));
                    e += 1;
                }
                Some(keys)
            },
        }
    }

    /// Predicted experts may be read ahead: asked for, served here, and cached.
    pub fn prediction_reads_enabled(&self, requested: bool) -> (b: bool)
        ensures
            b == (requested && self.remote is None && self.local_routed > 0
                && self.expert_cache.stats.capacity_bytes > 0),
    {
        requested && self.remote.is_none() && self.local_routed > 0
            && self.expert_cache.stats.capacity_bytes > 0
    }

    /// The experts to read ahead for a predicted routing: up to three where second
    /// reads are asked for, else the first that is not cached.
    pub fn predicted_reads(
        &self,
        requested: bool,
        prediction: &[usize],
        second: bool,
        second_rank_ceiling: usize,
        third: bool,
    ) -> (r: Option<[Option<usize>; 3]>)
        requires
            self.wf(),
        ensures
            r is Some <==> requested && self.remote is None && self.local_routed > 0
                && self.expert_cache.stats.capacity_bytes > 0,
            r matches Some(s) ==> {
                let p = expert_cache::predicted(
                    self.expert_cache,
                    prediction@,
                    second_rank_ceiling as int,
                    third,
                );
                &&& s[0] == p.0
                &&& s[1] == if second {
                    p.1
                } else {
                    None
                }
                &&& s[2] == if second {
                    p.2
                } else {
                    None
                }
            },
    {
        if !self.prediction_reads_enabled(requested) {
            return None;
        }
        if second {
            Some(self.expert_cache.predicted_uncached(prediction, second_rank_ceiling, third))
        } else {
            Some([self.expert_cache.first_uncached(prediction), None, None])
        }
    }

    /// Forgets the routing history of the cache, where that is asked for.
    pub fn reset_expert_cache_history(&mut self, enabled: bool)
        requires
            old(self).wf(),
        ensures
            final(self).wf(),
            !enabled ==> *final(self) == *old(self),
            enabled ==> history_reset(*old(self), *final(self)),
    {
        if enabled {
            self.expert_cache.reset_history();
        }
    }

    /// Looks up a block's experts in the cache, where the block is read whole;
    /// nothing is found otherwise.
    pub fn block_lookup(&mut self, unique: &[usize], streamed: bool) -> (hits: Vec<
        Option<Arc<ReadBuffer>>,
    >)
        requires
            old(self).wf(),
            forall|i: int|
                0 <= i < unique.len() ==> (#[trigger] unique[i]) < old(self).n_routed,
        ensures
            final(self).wf(),
            hits.len() == unique.len(),
            *final(self) == (MoeLayer { expert_cache: final(self).expert_cache, ..*old(self) }),
            !(streamed && old(self).expert_cache.stats.capacity_bytes > 0) ==> {
                &&& *final(self) == *old(self)
                &&& forall|i: int| 0 <= i < hits.len() ==> (#[trigger] hits[i]) is None
            },
            streamed && old(self).expert_cache.stats.capacity_bytes > 0 ==> {
                &&& forall|i: int| #![trigger hits[i]]
                    0 <= i < hits.len() ==> match expert_cache::buffer_of(
                        old(self).expert_cache.entries@,
                        unique[i],
                    ) {
                        Some(b) => hits[i] is Some && *hits[i]->0 == b,
                        None => hits[i] is None,
                    }
                &&& expert_cache::looked_up(
                    old(self).expert_cache,
                    final(self).expert_cache,
                    unique@,
                )
            },
    {
        if streamed && self.expert_cache.stats.capacity_bytes > 0 {
            match self.expert_cache.lookup(unique) {
                Some(h) => {
                    return h;
                },
                None => {},
            }
        }
        let mut none: Vec<Option<Arc<ReadBuffer>>> = Vec::new();
        let mut i: usize = 0;
        while i < unique.len()
            invariant
                i <= unique.len(),
                none.len() == i,
                forall|x: int| 0 <= x < i ==> (#[trigger] none[x]) is None,
            decreases unique.len() - i,
        {
            none.push(None);
            i += 1;
        }
        none
    }

    /// Caches one expert ahead of use from its freshly read bytes; the bytes that
    /// were kept, zero where none were.
    pub fn prewarm_one(&mut self, expert: usize, bytes: &mut ReadBuffer) -> (kept: usize)
        requires
            old(self).wf(),
        ensures
            final(self).wf(),
            kept == if old(bytes).data.len() > 0 && expert < old(self).n_routed && old(bytes).allocated <= old(self).expert_cache.stats.capacity_bytes - old(self).expert_cache.stats.retained_bytes && !expert_cache::cached(
                old(self).expert_cache.entries@,
                expert,
            ) {
                old(bytes).data.len() as int
            } else {
                0
            },
            *final(self) == (MoeLayer { expert_cache: final(self).expert_cache, ..*old(self) }),
            kept > 0 ==> expert_cache::preloaded(
                old(self).expert_cache,
                final(self).expert_cache,
                expert,
                *old(bytes),
            ) && final(bytes).data.len() == 0 && final(bytes).allocated == 0,
            kept == 0 ==> *final(self) == *old(self) && *final(bytes) == *old(bytes),
    {
        let size: usize = bytes.data.len();
        if self.expert_cache.preload(expert, bytes) {
            size
        } else {
            0
        }
    }

    /// The cohorts in which the cache is filled ahead of use; none for a layer
    /// without a cache.
    pub fn prewarm_cohorts(&self) -> (c: Vec<(usize, usize)>)
        ensures
            self.expert_cache.stats.capacity_bytes == 0 ==> c.len() == 0,
            self.expert_cache.stats.capacity_bytes > 0 ==> ranges::is_chunks(
                c@,
                self.local_routed as int,
                PREWARM_COHORT as int,
            ) && ranges::is_chunks(c@, self.local_routed as int, 16),
    {
        if self.expert_cache.stats.capacity_bytes == 0 {
            return Vec::new();
        }
        chunks(self.local_routed, PREWARM_COHORT)
    }
}

/// Adds up what filling the cache brought: experts and bytes.
pub fn prewarm_total(done: &[usize]) -> (t: (usize, usize))
    requires
        loaded_bytes(done@) <= usize::MAX,
    ensures
        t.0 == loaded_count(done@),
        t.1 == loaded_bytes(done@),
{
    let mut n: usize = 0;
    let mut b: usize = 0;
    let mut i: usize = 0;
    while i < done.len()
        invariant
            i <= done.len(),
            n <= i,
            n == loaded_count(done@.take(i as int)),
            b == loaded_bytes(done@.take(i as int)),
            loaded_bytes(done@) <= usize::MAX,
        decreases done.len() - i,
    {
        proof {
            assert(done@.take(i + 1).drop_last() =~= done@.take(i as int));
            lemma_loaded_prefix(done@, i + 1);
        }
        if done[i] > 0 {
            n = n + 1;
        }
        b = b + done[i];
        i += 1;
    }
    proof {
        assert(done@.take(done.len() as int) =~= done@);
    }
    (n, b)
}

proof fn lemma_loaded_prefix(s: Seq<usize>, n: int)
    requires
        0 <= n <= s.len(),
    ensures
        loaded_bytes(s.take(n)) <= loaded_bytes(s),
    decreases s.len(),
{
    if n == s.len() {
        assert(s.take(n) =~= s);
    } else {
        lemma_loaded_prefix(s.drop_last(), n);
        assert(s.drop_last().take(n) =~= s.take(n));
    }
}

/// The ids and weights of a fused device call for several rows: row by row the
/// routed experts and those held of the shared ones; the weights likewise.
pub open spec fn fused_ids(
    gates: Seq<GateOut>,
    n_routed: int,
    local_shared: nat,
) -> Seq<i32>
    decreases gates.len(),
{
    if gates.len() == 0 {
        Seq::empty()
    } else {
        fused_ids(gates.drop_last(), n_routed, local_shared) + gates.last().idx@.map_values(
            |e: usize| e as i32,
        ) + Seq::new(local_shared, |s: int| (n_routed + s) as i32)
    }
}

pub open spec fn fused_weights(gates: Seq<GateOut>) -> Seq<u32>
    decreases gates.len(),
{
    if gates.len() == 0 {
        Seq::empty()
    } else {
        fused_weights(gates.drop_last()) + gates.last().w@ + gates.last().gammas@
    }
}

impl MoeLayer {
    /// The ids and weights of a fused device call for these rows.
    pub fn fused_call(&self, gates: &[GateOut]) -> (c: (Vec<i32>, Vec<u32>))
        requires
            self.wf(),
            self.n_routed + self.n_shared <= i32::MAX,
            moe_block::gates_fit(
                gates@,
                self.n_routed as int,
                self.n_shared as int,
                self.top_k as int,
            ),
        ensures
            c.0@ =~= fused_ids(gates@, self.n_routed as int, self.local_shared as nat),
            c.1@ =~= fused_weights(gates@),
    {
        let mut ids: Vec<i32> = Vec::new();
        let mut wts: Vec<u32> = Vec::new();
        let mut r: usize = 0;
        proof {
            assert(gates@.take(0) =~= Seq::<GateOut>::empty());
        }
        while r < gates.len()
            invariant
                self.wf(),
                self.n_routed + self.n_shared <= i32::MAX,
                moe_block::gates_fit(
                    gates@,
                    self.n_routed as int,
                    self.n_shared as int,
                    self.top_k as int,
                ),
                r <= gates.len(),
                ids@ =~= fused_ids(
                    gates@.take(r as int),
                    self.n_routed as int,
                    self.local_shared as nat,
                ),
                wts@ =~= fused_weights(gates@.take(r as int)),
            decreases gates.len() - r,
        {
            let g: &GateOut = &gates[r];
            let ghost ids0 = ids@;
            let ghost wts0 = wts@;
            proof {
                assert(gates@.take(r + 1).drop_last() =~= gates@.take(r as int));
                assert(gates@.take(r + 1).last() == *g);
                assert(moe_block::gate_fits(
                    gates@[r as int],
                    self.n_routed as int,
                    self.n_shared as int,
                    self.top_k as int,
                ));
            }
            let ghost mapped = g.idx@.map_values(|e: usize| e as i32);
            let mut j: usize = 0;
            while j < g.idx.len()
                invariant
                    j <= g.idx.len(),
                    self.n_routed + self.n_shared <= i32::MAX,
                    mapped == g.idx@.map_values(|e: usize| e as i32),
                    forall|x: int| 0 <= x < g.idx.len() ==> (#[trigger] g.idx[x]) < self.n_routed,
                    ids@ =~= ids0 + mapped.take(j as int),
                decreases g.idx.len() - j,
            {
                ids.push(g.idx[j] as i32);
                j += 1;
            }
            let ghost routed = ids@;
            let mut s: usize = 0;
            while s < self.local_shared
                invariant
                    self.wf(),
                    self.n_routed + self.n_shared <= i32::MAX,
                    s <= self.local_shared,
                    ids@ =~= routed + Seq::new(s as nat, |x: int| (self.n_routed + x) as i32),
                decreases self.local_shared - s,
            {
                ids.push((self.n_routed + s) as i32);
                s += 1;
            }
            let mut w: Vec<u32> = g.w.clone();
            let mut gm: Vec<u32> = g.gammas.clone();
            proof {
                assert(w@ =~= g.w@);
                assert(gm@ =~= g.gammas@);
            }
            wts.append(&mut w);
            wts.append(&mut gm);
            r += 1;
        }
        proof {
            assert(gates@.take(gates.len() as int) =~= gates@);
        }
        (ids, wts)
    }
}

// ---------------------------------------------------------------- decode reads

/// How a decode step reads its experts.
#[derive(Clone, Copy, PartialEq, Eq, Structural, Debug)]
pub struct DecodeReads {
    /// Hint every expert's pages before any compute.
    pub prefetch: bool,
    /// Read paged-out experts whole.
    pub bulk: bool,
    /// Into reusable buffers.
    pub reused: bool,
    /// With each read overlapping the others' compute, through the cache.
    pub pipelined: bool,
}

/// Chooses how a decode step reads: `any_mapped` says that some selected expert is
/// mapped.
pub fn decode_reads(s: ReadSwitches, any_mapped: bool) -> (d: DecodeReads)
    ensures
        d.prefetch == (s.seq || !s.skip_prefetch),
        d.bulk == (!s.seq && any_mapped),
        d.reused == (d.bulk && s.reuse),
        d.pipelined == (s.pipeline && s.par && d.reused),
{
    let bulk: bool = !s.seq && any_mapped;
    let reused: bool = bulk && s.reuse;
    DecodeReads {
        prefetch: s.seq || !s.skip_prefetch,
        bulk,
        reused,
        pipelined: s.pipeline && s.par && reused,
    }
}

/// What a slot of an overlapped decode step does next.
#[derive(Clone, Copy, PartialEq, Eq, Structural, Debug)]
pub enum SlotAction {
    /// Compute from the cached bytes; nothing is retained.
    FromCache,
    /// Ask the pending prediction for this expert's bytes.
    TakePredicted,
    /// Read the expert whole.
    Read,
    /// Compute from the buffer, which may then be retained.
    FromBuffer,
    /// Compute from the expert's own storage; nothing is retained.
    FromStorage,
}

/// What is known of a slot's expert.
#[derive(Clone, Copy, PartialEq, Eq, Structural, Debug)]
pub struct SlotFacts {
    /// The expert is mapped from a file.
    pub mapped: bool,
    /// The cache served it.
    pub cached: bool,
    /// It is a routed expert and predicted reads are pending.
    pub predicted: bool,
    /// The cache is in use.
    pub caching: bool,
    /// Its pages are mostly in memory.
    pub resident: bool,
}

/// Whether a slot that neither the cache nor a prediction served is read whole.
pub open spec fn reads_whole(f: SlotFacts) -> bool {
    f.mapped && (f.caching || !f.resident)
}

/// The first action of a slot.
pub open spec fn begins(f: SlotFacts) -> SlotAction {
    if !f.mapped {
        SlotAction::FromStorage
    } else if f.cached {
        SlotAction::FromCache
    } else if f.predicted {
        SlotAction::TakePredicted
    } else if reads_whole(f) {
        SlotAction::Read
    } else {
        SlotAction::FromStorage
    }
}

/// The action after the pending prediction answered.
pub open spec fn after_prediction(f: SlotFacts, taken: bool) -> SlotAction {
    if taken {
        SlotAction::FromBuffer
    } else if reads_whole(f) {
        SlotAction::Read
    } else {
        SlotAction::FromStorage
    }
}

/// The action after a read.
pub open spec fn after_read(ok: bool) -> SlotAction {
    if ok {
        SlotAction::FromBuffer
    } else {
        SlotAction::FromStorage
    }
}

/// The first action of a slot of a decode step without overlapped reads.
pub open spec fn begins_plain(d: DecodeReads, mapped: bool, resident: bool) -> SlotAction {
    if d.bulk && mapped && !resident {
        SlotAction::Read
    } else {
        SlotAction::FromStorage
    }
}

/// The first action of a slot.
pub fn slot_begin(f: SlotFacts) -> (a: SlotAction)
    ensures
        a == begins(f),
{
    if !f.mapped {
        SlotAction::FromStorage
    } else if f.cached {
        SlotAction::FromCache
    } else if f.predicted {
        SlotAction::TakePredicted
    } else if f.caching || !f.resident {
        SlotAction::Read
    } else {
        SlotAction::FromStorage
    }
}

/// The action after the pending prediction answered.
pub fn slot_predicted(f: SlotFacts, taken: bool) -> (a: SlotAction)
    requires
        f.mapped,
    ensures
        a == after_prediction(f, taken),
{
    if taken {
        SlotAction::FromBuffer
    } else if f.caching || !f.resident {
        SlotAction::Read
    } else {
        SlotAction::FromStorage
    }
}

/// The action after a read: a failed one falls back to the expert's own storage.
pub fn slot_read(ok: bool) -> (a: SlotAction)
    ensures
        a == after_read(ok),
{
    if ok {
        SlotAction::FromBuffer
    } else {
        SlotAction::FromStorage
    }
}

/// The first action of a slot where reads do not overlap: an expert whose pages are mostly
/// out of memory is read whole in a bulk step.
pub fn slot_plain(d: DecodeReads, mapped: bool, resident: bool) -> (a: SlotAction)
    ensures
        a == begins_plain(d, mapped, resident),
{
    if d.bulk && mapped && !resident {
        SlotAction::Read
    } else {
        SlotAction::FromStorage
    }
}

/// The action in which a slot ends, from the one that it begins with: `taken` is the pending
/// prediction's answer, `ok` says that a read succeeded.
pub open spec fn ends(begin: SlotAction, f: SlotFacts, taken: bool, ok: bool) -> SlotAction {
    let next = if begin is TakePredicted {
        after_prediction(f, taken)
    } else {
        begin
    };
    if next is Read {
        after_read(ok)
    } else {
        next
    }
}

/// Where the bytes can come from that a slot computes with.
pub ghost struct SlotBytes {
    pub cached: Seq<u8>,
    pub predicted: Seq<u8>,
    pub read: Seq<u8>,
    pub storage: Seq<u8>,
}

/// The bytes that a slot computes with.
pub open spec fn computes_with(
    begin: SlotAction,
    f: SlotFacts,
    taken: bool,
    ok: bool,
    b: SlotBytes,
) -> Seq<u8> {
    match ends(begin, f, taken, ok) {
        SlotAction::FromCache => b.cached,
        SlotAction::FromBuffer => if begin is TakePredicted && taken {
            b.predicted
        } else {
            b.read
        },
        _ => b.storage,
    }
}

/// A slot always ends by computing its own expert, whatever was predicted, cached or read:
/// where the cache, the prediction and a read that succeeded hold the expert's bytes, these
/// are what it computes with.
pub proof fn law_slot_computes_its_own_expert(
    f: SlotFacts,
    d: DecodeReads,
    taken: bool,
    ok: bool,
    b: SlotBytes,
)
    requires
        f.cached ==> b.cached == b.storage,
        taken ==> b.predicted == b.storage,
        ok ==> b.read == b.storage,
    ensures
        ends(begins(f), f, taken, ok) is FromCache || ends(begins(f), f, taken, ok) is FromBuffer
            || ends(begins(f), f, taken, ok) is FromStorage,
        computes_with(begins(f), f, taken, ok, b) == b.storage,
        computes_with(begins_plain(d, f.mapped, f.resident), f, taken, ok, b) == b.storage,
{
}

/// What a token adds up: the weight of each of its terms, and what its expert's bytes give
/// for the token's input, with the bytes from where its slot found them.
pub open spec fn found_values(
    terms: Seq<(usize, u32)>,
    facts: Seq<SlotFacts>,
    taken: Seq<bool>,
    ok: Seq<bool>,
    bytes: Seq<SlotBytes>,
    run: spec_fn(Seq<u8>) -> Seq<u32>,
) -> Seq<(u32, Seq<u32>)> {
    Seq::new(
        terms.len(),
        |j: int|
            (
                terms[j].1,
                run(computes_with(begins(facts[j]), facts[j], taken[j], ok[j], bytes[j])),
            ),
    )
}

/// A token comes out bit for bit the same whatever was predicted, cached or read, and as a
/// block of the one row does, for whatever function `run` makes an output of an expert's bytes
/// and whatever function `add_up` makes one of weights and rows.
pub proof fn law_token_is_bit_for_bit_the_same_whatever_the_source(
    gate: GateOut,
    terms: Seq<(usize, u32)>,
    p: moe_block::BlockPlan,
    n_routed: int,
    n_shared: int,
    k: int,
    facts: Seq<SlotFacts>,
    taken: Seq<bool>,
    ok: Seq<bool>,
    bytes: Seq<SlotBytes>,
    storage: spec_fn(int) -> Seq<u8>,
    run: spec_fn(Seq<u8>) -> Seq<u32>,
    visits: Seq<(usize, Vec<u32>)>,
    ey: Seq<u32>,
    shared: spec_fn(int, int) -> Seq<u32>,
    hidden: int,
    add_up: spec_fn(Seq<(u32, Seq<u32>)>) -> Seq<u32>,
)
    requires
        0 < k <= usize::MAX,
        0 <= n_shared <= usize::MAX,
        moe_block::gate_fits(gate, n_routed, n_shared, k),
        terms_are(terms, moe_block::token_terms(gate, n_routed)),
        facts.len() == terms.len(),
        taken.len() == terms.len(),
        ok.len() == terms.len(),
        bytes.len() == terms.len(),
        forall|j: int|
            0 <= j < terms.len() ==> {
                &&& (#[trigger] bytes[j]).storage == storage(terms[j].0 as int)
                &&& facts[j].cached ==> bytes[j].cached == bytes[j].storage
                &&& taken[j] ==> bytes[j].predicted == bytes[j].storage
                &&& ok[j] ==> bytes[j].read == bytes[j].storage
            },
        moe_block::plan_is(p, seq![gate], n_routed, n_shared, k),
        moe_block::visits_give(visits, p, k, hidden, |e: int, row: int| run(storage(e))),
        moe_block::all_scattered(ey, visits, p.occ@, hidden),
        forall|x: int|
            0 <= x < n_shared ==> #[trigger] shared(x, 0) == run(storage(n_routed + x)),
    ensures
        found_values(terms, facts, taken, ok, bytes, run) == moe_block::token_values(
            gate,
            n_routed,
            |e: int, row: int| run(storage(e)),
            0,
        ),
        found_values(terms, facts, taken, ok, bytes, run) == moe_block::row_values(
            p,
            ey,
            shared,
            0,
            k,
            n_shared,
            hidden,
        ),
        add_up(found_values(terms, facts, taken, ok, bytes, run)) == add_up(
            moe_block::row_values(p, ey, shared, 0, k, n_shared, hidden),
        ),
{
    let one = seq![gate];
    let out = |e: int, row: int| run(storage(e));
    assert(one.len() * k == k) by (nonlinear_arith)
        requires
            one.len() == 1,
    ;
    assert(moe_block::gates_fit(one, n_routed, n_shared, k));
    let a = found_values(terms, facts, taken, ok, bytes, run);
    let b = moe_block::token_values(gate, n_routed, out, 0);
    assert forall|j: int| 0 <= j < terms.len() implies a[j] == b[j] by {
        assert(bytes[j].storage == storage(terms[j].0 as int));
        assert((terms[j].0 as int, terms[j].1) == moe_block::token_terms(gate, n_routed)[j]);
    }
    assert(a =~= b);
    moe_block::law_block_row_adds_up_like_its_token(
        p,
        one,
        n_routed,
        n_shared,
        k,
        visits,
        ey,
        shared,
        hidden,
        out,
        0,
    );
}

/// The cache and the buffer after one buffer was offered, whatever leases are outstanding.
pub open spec fn offered_once(
    pre: ExpertCache,
    post: ExpertCache,
    expert: usize,
    given: ReadBuffer,
    after: ReadBuffer,
) -> bool {
    exists|counts: Seq<usize>|
        #[trigger] expert_cache::offer_settled(pre, post, expert, given, after, counts)
}

/// The cache and the buffer after one slot: the buffer was offered where it is fresh.
pub open spec fn slot_offered(
    pre: ExpertCache,
    post: ExpertCache,
    expert: usize,
    fresh: bool,
    given: ReadBuffer,
    after: ReadBuffer,
) -> bool {
    if fresh {
        offered_once(pre, post, expert, given, after)
    } else {
        pre == post && after == given
    }
}

/// The cache and the buffers after those of the first `n` slots were offered in gate
/// order, those that are not fresh left out.
pub open spec fn offered_in_order(
    pre: ExpertCache,
    post: ExpertCache,
    experts: Seq<usize>,
    fresh: Seq<bool>,
    given: Seq<ReadBuffer>,
    after: Seq<ReadBuffer>,
    n: nat,
) -> bool
    decreases n,
{
    if n == 0 {
        pre == post
    } else {
        exists|mid: ExpertCache|
            #[trigger] slot_offered(
                mid,
                post,
                experts[n - 1],
                fresh[n - 1],
                given[n - 1],
                after[n - 1],
            ) && offered_in_order(pre, mid, experts, fresh, given, after, (n - 1) as nat)
    }
}

proof fn lemma_offered_agree(
    pre: ExpertCache,
    post: ExpertCache,
    experts: Seq<usize>,
    fresh: Seq<bool>,
    given: Seq<ReadBuffer>,
    after: Seq<ReadBuffer>,
    other: Seq<ReadBuffer>,
    n: nat,
)
    requires
        offered_in_order(pre, post, experts, fresh, given, after, n),
        forall|i: int| 0 <= i < n ==> #[trigger] after[i] == other[i],
    ensures
        offered_in_order(pre, post, experts, fresh, given, other, n),
    decreases n,
{
    if n > 0 {
        let i = n - 1;
        assert(after[i] == other[i]);
        let mid = choose|mid: ExpertCache|
            #[trigger] slot_offered(mid, post, experts[i], fresh[i], given[i], after[i])
                && offered_in_order(pre, mid, experts, fresh, given, after, i as nat);
        lemma_offered_agree(pre, mid, experts, fresh, given, after, other, i as nat);
        assert(slot_offered(mid, post, experts[i], fresh[i], given[i], other[i]));
    }
}

proof fn lemma_offered_step(
    pre: ExpertCache,
    mid: ExpertCache,
    post: ExpertCache,
    experts: Seq<usize>,
    fresh: Seq<bool>,
    given: Seq<ReadBuffer>,
    before: Seq<ReadBuffer>,
    after: Seq<ReadBuffer>,
    n: nat,
)
    requires
        n > 0,
        offered_in_order(pre, mid, experts, fresh, given, before, (n - 1) as nat),
        forall|i: int| 0 <= i < n - 1 ==> #[trigger] before[i] == after[i],
        slot_offered(mid, post, experts[n - 1], fresh[n - 1], given[n - 1], after[n - 1]),
    ensures
        offered_in_order(pre, post, experts, fresh, given, after, n),
{
    lemma_offered_agree(pre, mid, experts, fresh, given, before, after, (n - 1) as nat);
}

impl MoeLayer {
    /// Offers the freshly read buffers of a decode step to the cache, in gate order
    /// and after all compute; each comes back as its offer left it.
    pub fn retain_in_order(
        &mut self,
        experts: &[usize],
        fresh: &[bool],
        buffers: &mut Vec<ReadBuffer>,
    )
        requires
            old(self).wf(),
            experts.len() <= fresh.len(),
            experts.len() <= old(buffers).len(),
        ensures
            final(self).wf(),
            *final(self) == (MoeLayer { expert_cache: final(self).expert_cache, ..*old(self) }),
            final(buffers).len() == old(buffers).len(),
            offered_in_order(
                old(self).expert_cache,
                final(self).expert_cache,
                experts@,
                fresh@,
                old(buffers)@,
                final(buffers)@,
                experts.len() as nat,
            ),
            forall|i: int|
                experts.len() <= i < old(buffers).len() ==> #[trigger] final(buffers)@[i] == old(
                    buffers,
                )@[i],
    {
        let ghost pre = self.expert_cache;
        let ghost given = buffers@;
        let mut i: usize = 0;
        while i < experts.len()
            invariant
                old(self).wf(),
                self.wf(),
                *self == (MoeLayer { expert_cache: self.expert_cache, ..*old(self) }),
                i <= experts.len(),
                experts.len() <= fresh.len(),
                experts.len() <= buffers.len(),
                buffers.len() == given.len(),
                given == old(buffers)@,
                pre == old(self).expert_cache,
                offered_in_order(
                    pre,
                    self.expert_cache,
                    experts@,
                    fresh@,
                    given,
                    buffers@,
                    i as nat,
                ),
                forall|x: int| i <= x < given.len() ==> #[trigger] buffers@[x] == given[x],
            decreases experts.len() - i,
        {
            let ghost mid = self.expert_cache;
            let ghost before = buffers@;
            if fresh[i] {
                let mut b: ReadBuffer = ReadBuffer::empty();
                std::mem::swap(&mut b, &mut buffers[i]);
                assert(b == given[i as int]);
                self.expert_cache.retain(experts[i], &mut b);
                std::mem::swap(&mut b, &mut buffers[i]);
                proof {
                    assert(offered_once(
                        mid,
                        self.expert_cache,
                        experts@[i as int],
                        given[i as int],
                        buffers@[i as int],
                    ));
                }
            }
            proof {
                assert(slot_offered(
                    mid,
                    self.expert_cache,
                    experts@[i as int],
                    fresh@[i as int],
                    given[i as int],
                    buffers@[i as int],
                ));
                lemma_offered_step(
                    pre,
                    mid,
                    self.expert_cache,
                    experts@,
                    fresh@,
                    given,
                    before,
                    buffers@,
                    (i + 1) as nat,
                );
            }
            i += 1;
        }
    }
}

// ----------------------------------------------------------------------- dense

/// A dense layer's feed-forward part and the backends attached to it.
pub struct DenseMlp {
    pub inter: usize,
    /// Bits of the output scale.
    pub global_scale: u32,
    pub ov: Option<u32>,
    pub ov_dense: Option<u32>,
    /// Layer number, and slices of the dense matrix that the fused model holds as
    /// experts.
    pub ov_dense_moe: Option<(u32, usize)>,
}

/// Which way a dense call takes.
#[derive(Clone, Copy, PartialEq, Eq, Structural, Debug)]
pub enum DensePath {
    /// The fused model with the dense slices as experts.
    Sliced,
    /// The device's dense model.
    Device,
    /// One row after another; each on the per-row device model where there is one.
    RowByRow,
    /// All rows in one pass of the host kernel.
    AtOnce,
}

impl DenseMlp {
    pub fn new(inter: usize, global_scale: u32) -> (d: Self)
        ensures
            d == (DenseMlp { inter, global_scale, ov: None, ov_dense: None, ov_dense_moe: None }),
    {
        DenseMlp { inter, global_scale, ov: None, ov_dense: None, ov_dense_moe: None }
    }

    /// The layer number of the per-row device model.
    pub fn ov(&self) -> (r: Option<u32>)
        ensures
            r == self.ov,
    {
        self.ov
    }

    /// The layer number of the device's dense model.
    pub fn ov_dense(&self) -> (r: Option<u32>)
        ensures
            r == self.ov_dense,
    {
        self.ov_dense
    }

    pub fn attach_ov(&mut self, layer: u32)
        ensures
            *final(self) == (DenseMlp { ov: Some(layer), ..*old(self) }),
    {
        self.ov = Some(layer);
    }

    pub fn attach_ov_dense(&mut self, layer: u32)
        ensures
            *final(self) == (DenseMlp { ov_dense: Some(layer), ..*old(self) }),
    {
        self.ov_dense = Some(layer);
    }

    pub fn attach_ov_dense_moe(&mut self, layer: u32, slices: usize)
        ensures
            *final(self) == (DenseMlp { ov_dense_moe: Some((layer, slices)), ..*old(self) }),
    {
        self.ov_dense_moe = Some((layer, slices));
    }

    /// The ids and weights with which the fused model adds up the dense slices:
    /// every slice once per row, all with weight one.
    pub fn dense_moe_call(&self, rows: usize) -> (c: Option<(Vec<i32>, Vec<u32>)>)
        requires
            self.ov_dense_moe matches Some((_, n)) ==> n <= i32::MAX && rows * n <= usize::MAX,
        ensures
            c is Some <==> self.ov_dense_moe is Some,
            c matches Some((ids, w)) ==> {
                let n = (self.ov_dense_moe->0).1 as int;
                &&& ids.len() == rows * n
                &&& w.len() == rows * n
                &&& forall|i: int| 0 <= i < ids.len() ==> #[trigger] ids[i] == i % n
                &&& forall|i: int| 0 <= i < w.len() ==> #[trigger] w[i] == ONE
            },
    {
        match self.ov_dense_moe {
            None => None,
            Some((_, n)) => {
                let mut ids: Vec<i32> = Vec::new();
                let mut r: usize = 0;
                while r < rows
                    invariant
                        n <= i32::MAX,
                        r <= rows,
                        ids.len() == r * n,
                        forall|i: int| 0 <= i < ids.len() ==> #[trigger] ids[i] == i % (n as int),
                    decreases rows - r,
                {
                    let mut s: usize = 0;
                    while s < n
                        invariant
                            n <= i32::MAX,
                            s <= n,
                            ids.len() == r * n + s,
                            forall|i: int|
                                0 <= i < ids.len() ==> #[trigger] ids[i] == i % (n as int),
                        decreases n - s,
                    {
                        proof {
                            vstd::arithmetic::div_mod::lemma_fundamental_div_mod_converse(
                                r * n + s,
                                n as int,
                                r as int,
                                s as int,
                            );
                        }
                        ids.push(s as i32);
                        s += 1;
                    }
                    assert((r + 1) * n == r * n + n) by (nonlinear_arith);
                    r += 1;
                }
                let w: Vec<u32> = vec![ONE; rows * n];
                Some((ids, w))
            },
        }
    }

    /// The path of a call for several rows. The two flags say that the fused and the
    /// dense device model were asked and gave no answer.
    pub fn rows_path(&self, rows: usize, gemm: bool, sliced_declined: bool, device_declined: bool) -> (p:
        DensePath)
        ensures
            p == (if self.ov_dense_moe is Some && !sliced_declined {
                DensePath::Sliced
            } else if self.ov_dense is Some && !device_declined {
                DensePath::Device
            } else if rows < 2 || self.ov is Some || !gemm {
                DensePath::RowByRow
            } else {
                DensePath::AtOnce
            }),
    {
        if self.ov_dense_moe.is_some() && !sliced_declined {
            DensePath::Sliced
        } else if self.ov_dense.is_some() && !device_declined {
            DensePath::Device
        } else if rows < 2 || self.ov.is_some() || !gemm {
            DensePath::RowByRow
        } else {
            DensePath::AtOnce
        }
    }

    /// A single row goes through the row path wherever a model for rows is attached.
    pub fn single_row_as_rows(&self) -> (b: bool)
        ensures
            b == (self.ov_dense is Some || self.ov_dense_moe is Some),
    {
        self.ov_dense.is_some() || self.ov_dense_moe.is_some()
    }

    /// Settles the comparison of the sliced model with its reference: one that
    /// disagrees is taken off.
    pub fn settle_dense_check(&mut self, agrees: bool)
        ensures
            *final(self) == (DenseMlp {
                ov_dense_moe: if agrees {
                    old(self).ov_dense_moe
                } else {
                    None
                },
                ..*old(self)
            }),
    {
        if !agrees {
            self.ov_dense_moe = None;
        }
    }
}

/// What the check of a device on the highest expert ids leads to.
#[derive(Clone, Copy, PartialEq, Eq, Structural, Debug)]
pub struct HighIdVerdict {
    /// The layer counts as served by the device.
    pub serves: bool,
    /// The layer is taken off the device.
    pub fails_layer: bool,
}

/// Settles the check: a layer that disagrees leaves the device only where the check
/// is enforced.
pub fn settle_high_ids(agrees: bool, enforce: bool) -> (v: HighIdVerdict)
    ensures
        v.serves == (agrees || !enforce),
        v.fails_layer == (!agrees && enforce),
{
    HighIdVerdict { serves: agrees || !enforce, fails_layer: !agrees && enforce }
}

/// The middle one of some timings, the later of two middle ones; zero for none.
pub open spec fn middle(us: Seq<u64>) -> u64 {
    if us.len() == 0 {
        0
    } else {
        ranking::descending(us)[us.len() - 1 - us.len() / 2]
    }
}

/// The middle one of some timings.
pub fn median(us: &[u64]) -> (m: u64)
    ensures
        m == middle(us@),
{
    let sorted: Vec<u64> = sort_descending(us);
    proof {
        vstd::seq_lib::to_multiset_len(sorted@);
        vstd::seq_lib::to_multiset_len(us@);
    }
    if sorted.len() == 0 {
        0
    } else {
        sorted[sorted.len() - 1 - sorted.len() / 2]
    }
}

/// Where an expert's bytes are looked for: in the cache first, then among what was read
/// ahead, then by a whole read where the cache is in use or the pages are away, and
/// else in its own storage.
pub proof fn law_sources_are_tried_in_order(f: SlotFacts)
    ensures
        begins(f) is FromCache <==> f.mapped && f.cached,
        begins(f) is TakePredicted <==> f.mapped && !f.cached && f.predicted,
        begins(f) is Read <==> f.mapped && !f.cached && !f.predicted && (f.caching || !f.resident),
        begins(f) is FromStorage <==> !f.mapped || (!f.cached && !f.predicted && !f.caching
            && f.resident),
        after_prediction(f, true) is FromBuffer,
        after_prediction(f, false) is Read <==> f.mapped && (f.caching || !f.resident),
        after_prediction(f, false) is FromStorage <==> !f.mapped || (!f.caching && f.resident),
{
}

/// The median is the value at the middle of the ascending order, the upper of two.
pub proof fn law_median_is_in_the_middle(us: Seq<u64>)
    requires
        us.len() > 0,
    ensures
        middle(us) == us.sort_by(|a: u64, b: u64| a <= b)[us.len() as int / 2],
        us.sort_by(|a: u64, b: u64| a <= b).len() == us.len(),
{
    let leq = |a: u64, b: u64| a <= b;
    let down = ranking::descending(us);
    let up = us.sort_by(leq);
    us.lemma_sort_by_ensures(leq);
    us.lemma_sort_by_ensures(ranking::descends());
    vstd::seq_lib::to_multiset_len(us);
    vstd::seq_lib::to_multiset_len(down);
    vstd::seq_lib::to_multiset_len(up);
    down.lemma_reverse_to_multiset();
    let turned = down.reverse();
    assert(vstd::relations::sorted_by(turned, leq)) by {
        assert forall|i: int, j: int| 0 <= i < j < turned.len() implies #[trigger] leq(
            turned[i],
            turned[j],
        ) by {
            assert(ranking::descends()(down[down.len() - 1 - j], down[down.len() - 1 - i]));
        }
    }
    vstd::seq_lib::lemma_sorted_unique(turned, up, leq);
    assert(turned[us.len() as int / 2] == down[us.len() - 1 - us.len() as int / 2]);
}

/// The ids of a fused call stand row by row: the selected experts of the row, after them
/// every shared expert.
pub proof fn law_fused_ids_stand_row_by_row(
    gates: Seq<GateOut>,
    n_routed: int,
    local_shared: nat,
    k: int,
    r: int,
    j: int,
)
    requires
        forall|x: int| 0 <= x < gates.len() ==> (#[trigger] gates[x]).idx.len() == k,
        0 <= r < gates.len(),
        0 <= j < k + local_shared,
        0 <= n_routed,
        n_routed + local_shared <= i32::MAX,
        forall|x: int, y: int|
            0 <= x < gates.len() && 0 <= y < k ==> (#[trigger] gates[x].idx[y]) < n_routed,
    ensures
        ({
            let w = k + local_shared;
            let ids = fused_ids(gates, n_routed, local_shared);
            &&& ids.len() == gates.len() * w
            &&& j < k ==> ids[r * w + j] == gates[r].idx[j]
            &&& j >= k ==> ids[r * w + j] == n_routed + (j - k)
        }),
    decreases gates.len(),
{
    let w = k + local_shared;
    let d = gates.drop_last();
    let before = fused_ids(d, n_routed, local_shared);
    let n = gates.len() as int;
    assert(n * w == (n - 1) * w + w) by (nonlinear_arith);
    assert(gates.last() == gates[n - 1]);
    if n > 1 {
        assert forall|x: int| 0 <= x < d.len() implies (#[trigger] d[x]).idx.len() == k by {
            assert(d[x] == gates[x]);
        }
        assert forall|x: int, y: int| 0 <= x < d.len() && 0 <= y < k implies (
        #[trigger] d[x].idx[y]) < n_routed by {
            assert(d[x].idx[y] == gates[x].idx[y]);
        }
        let x: int = if r < n - 1 {
            r
        } else {
            0
        };
        law_fused_ids_stand_row_by_row(d, n_routed, local_shared, k, x, j);
        if r < n - 1 {
            assert(r * w + j < (n - 1) * w) by (nonlinear_arith)
                requires
                    0 <= r < n - 1,
                    0 <= j < w,
            ;
            assert(r * w >= 0) by (nonlinear_arith)
                requires
                    0 <= r,
                    0 < w,
            ;
            assert(d[r] == gates[r]);
        }
    } else {
        assert(before =~= Seq::<i32>::empty());
        assert(0 * w == 0);
    }
    if r == n - 1 {
        assert(before.len() == (n - 1) * w);
        let idx = gates[r].idx@;
        let tail = idx.map_values(|e: usize| e as i32) + Seq::new(
            local_shared,
            |s: int| (n_routed + s) as i32,
        );
        assert(fused_ids(gates, n_routed, local_shared)[r * w + j] == tail[j]);
        if j < k {
            assert(gates[r].idx[j] < n_routed);
        }
    }
}

/// A layer is taken exactly where its router has a row for every expert of its bias and
/// possibly more, selects from one to all of them, and the layer holds either no expert
/// or all of them.
pub proof fn law_sound_layers(hidden: usize, top_k: usize, w: MoeWeights)
    ensures
        moe_fault(hidden, top_k, w) is None <==> {
            &&& hidden > 0
            &&& w.router_bias > 0
            &&& w.router_w >= w.router_bias * hidden
            &&& w.router_w % hidden == 0
            &&& 1 <= top_k <= w.router_bias
            &&& (w.experts == 0 && w.shared == 0) || (w.experts == w.router_bias && w.shared
                == w.router_w / hidden - w.router_bias)
        },
{
}

/// What was loaded: the buffers that hold something, and the bytes of all.
pub proof fn law_loads_add_up(done: Seq<usize>, n: usize)
    ensures
        loaded_count(Seq::empty()) == 0,
        loaded_bytes(Seq::empty()) == 0,
        loaded_count(done.push(n)) == loaded_count(done) + if n == 0 {
            0nat
        } else {
            1
        },
        loaded_bytes(done.push(n)) == loaded_bytes(done) + n,
{
    assert(done.push(n).drop_last() =~= done);
}

/// A reset of the history forgets every count and date and keeps every cached expert; a
/// layer without a cache stays as it is.
pub proof fn law_reset_history_keeps_the_experts(before: MoeLayer, after: MoeLayer, e: int)
    requires
        history_reset(before, after),
        0 <= e < before.expert_cache.frequency.len(),
        before.expert_cache.last.len() == before.expert_cache.frequency.len(),
    ensures
        after.expert_cache.entries == before.expert_cache.entries,
        before.expert_cache.stats.capacity_bytes > 0 ==> after.expert_cache.frequency[e] == 0
            && after.expert_cache.last[e] == 0 && after.expert_cache.clock == 0,
        before.expert_cache.stats.capacity_bytes == 0 ==> after == before,
        after.hidden == before.hidden && after.top_k == before.top_k && after.n_routed
            == before.n_routed && after.n_shared == before.n_shared,
{
    if before.expert_cache.stats.capacity_bytes > 0 {
        assert(after.expert_cache.frequency@[e] == 0);
        assert(after.expert_cache.last@[e] == 0);
    }
}

/// A row runs its selected experts and the shared ones that are held here.
pub proof fn law_experts_of_a_row(l: MoeLayer)
    ensures
        l.experts_per_row() - l.local_shared == l.top_k,
{
}

/// Weights of a fused call stand in the order of its ids: those of each row's selected
/// experts, then those of the shared ones.
pub proof fn law_fused_weights_follow_the_ids(gates: Seq<GateOut>, g: GateOut)
    ensures
        fused_weights(Seq::empty()) =~= Seq::<u32>::empty(),
        fused_weights(gates.push(g)) =~= fused_weights(gates) + (g.w@ + g.gammas@),
{
    assert(gates.push(g).drop_last() =~= gates);
}

/// Slots without a fresh buffer offer nothing; one that has one offers it, after all
/// before it.
pub proof fn law_offers_are_made_in_order(
    pre: ExpertCache,
    post: ExpertCache,
    experts: Seq<usize>,
    fresh: Seq<bool>,
    given: Seq<ReadBuffer>,
    after: Seq<ReadBuffer>,
    n: nat,
)
    requires
        offered_in_order(pre, post, experts, fresh, given, after, n),
        n <= fresh.len(),
    ensures
        (forall|i: int| 0 <= i < n ==> !#[trigger] fresh[i]) ==> post == pre && forall|i: int|
            0 <= i < n ==> #[trigger] after[i] == given[i],
        n == 1 && fresh[0] ==> offered_once(pre, post, experts[0], given[0], after[0]),
    decreases n,
{
    if n > 0 {
        let mid = choose|mid: ExpertCache|
            #[trigger] slot_offered(
                mid,
                post,
                experts[n - 1],
                fresh[n - 1],
                given[n - 1],
                after[n - 1],
            ) && offered_in_order(pre, mid, experts, fresh, given, after, (n - 1) as nat);
        law_offers_are_made_in_order(pre, mid, experts, fresh, given, after, (n - 1) as nat);
    }
}

/// Reads overlap with compute where they are pipelined into reused buffers, in parallel
/// and not one after the other.
pub proof fn law_switches_that_overlap(s: ReadSwitches)
    ensures
        s.overlaps() ==> s.pipeline && s.reuse && s.par && !s.seq,
        s.pipeline && s.reuse && s.par && !s.seq ==> s.overlaps(),
{
}

} // verus!
