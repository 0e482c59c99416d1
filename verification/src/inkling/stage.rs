//! Pipeline stages: which layers a rank owns, how it is loaded, and the slots of
//! the sequences that it decodes together.
use vstd::prelude::*;

use crate::inkling::ep::EpClient;
use crate::inkling::expert_cache::ExpertCacheStats;
use crate::inkling::loader::{ExpertSet, InklingManifest};
use crate::inkling::model::{self, layers_cache_stats, Layer, LayerTiming};
use crate::inkling::ov_attn::OvAttnStats;
use crate::inkling::ov_head::OvHeadStats;
use crate::text::same_text;

verus! {

/// Context of the global layers where a deployment does not choose one.
pub const INKLING_DEFAULT_MAX_SEQ: usize = 4096;

/// Where rank `r` of `t` starts when `n` layers are split evenly: the first
/// `n % t` ranks own one layer more than the others.
pub open spec fn split_point(n: int, r: int, t: int) -> int {
    r * (n / t) + if r < n % t {
        r
    } else {
        n % t
    }
}

/// At least one rank.
pub open spec fn ranks(total: u32) -> int {
    if total == 0 {
        1
    } else {
        total as int
    }
}

pub proof fn lemma_split_within(n: int, r: int, t: int)
    requires
        0 <= n,
        0 < t,
        0 <= r <= t,
    ensures
        0 <= split_point(n, r, t) <= n,
{
    vstd::arithmetic::div_mod::lemma_fundamental_div_mod(n, t);
    let q = n / t;
    let m = n % t;
    assert(0 <= q) by (nonlinear_arith)
        requires
            q == n / t,
            0 <= n,
            0 < t,
    ;
    assert(0 <= m < t);
    assert(0 <= r * q <= t * q) by (nonlinear_arith)
        requires
            0 <= r <= t,
            0 <= q,
    ;
}

/// Contiguous even split of `n` layers: the range of `rank` among `total`.
pub fn even_layer_split(n: usize, rank: u32, total: u32) -> (range: (usize, usize))
    requires
        rank < ranks(total),
    ensures
        range.0 == split_point(n as int, rank as int, ranks(total)),
        range.1 == split_point(n as int, rank + 1, ranks(total)),
{
    let t: usize = if total == 0 {
        1
    } else {
        total as usize
    };
    let r: usize = rank as usize;
    let base: usize = n / t;
    let extra: usize = n % t;
    proof {
        lemma_split_within(n as int, rank as int, t as int);
        lemma_split_within(n as int, rank + 1, t as int);
        assert((r + 1) * base == r * base + base) by (nonlinear_arith);
        assert(0 <= r * base) by (nonlinear_arith)
            requires
                0 <= r,
                0 <= base,
        ;
    }
    let lo: usize = r * base + if r < extra {
        r
    } else {
        extra
    };
    let hi: usize = if r < extra {
        lo + base + 1
    } else {
        lo + base
    };
    (lo, hi)
}

/// The split starts at layer zero, ends at the last layer, leaves no gap between
/// neighbours, and no rank owns more than one layer more than another.
pub proof fn law_even_split_covers_the_layers(n: int, t: int, a: int, b: int)
    requires
        0 <= n,
        0 < t,
        0 <= a < t,
        0 <= b < t,
    ensures
        split_point(n, 0, t) == 0,
        split_point(n, t, t) == n,
        split_point(n, a, t) <= split_point(n, a + 1, t),
        split_point(n, a + 1, t) - split_point(n, a, t) <= split_point(n, b + 1, t) - split_point(
            n,
            b,
            t,
        ) + 1,
{
    vstd::arithmetic::div_mod::lemma_fundamental_div_mod(n, t);
    let q = n / t;
    assert(0 <= q) by (nonlinear_arith)
        requires
            q == n / t,
            0 <= n,
            0 < t,
    ;
    assert((a + 1) * q == a * q + q) by (nonlinear_arith);
    assert((b + 1) * q == b * q + q) by (nonlinear_arith);
    assert(0 * q == 0) by (nonlinear_arith);
    assert(0 <= n % t < t);
}

/// Why a rank has no layers.
#[derive(Clone, Copy, PartialEq, Eq, Structural, Debug)]
pub enum SplitError {
    RankOutOfRange { rank: u32, total: u32 },
    NoLayers { rank: u32, total: u32, lo: usize, hi: usize },
}

/// The layer range of a rank: never empty.
pub fn layer_split(m: &InklingManifest, rank: u32, total: u32) -> (r: Result<
    (usize, usize),
    SplitError,
>)
    ensures
        match r {
            Ok((lo, hi)) => {
                &&& rank < ranks(total)
                &&& lo == split_point(m.num_layers as int, rank as int, ranks(total))
                &&& hi == split_point(m.num_layers as int, rank + 1, ranks(total))
                &&& lo < hi
            },
            Err(e) => {
                ||| rank >= ranks(total) && e == (SplitError::RankOutOfRange {
                    rank,
                    total: ranks(total) as u32,
                })
                ||| rank < ranks(total) && {
                    let lo = split_point(m.num_layers as int, rank as int, ranks(total));
                    let hi = split_point(m.num_layers as int, rank + 1, ranks(total));
                    lo >= hi && e == (SplitError::NoLayers {
                        rank,
                        total: ranks(total) as u32,
                        lo: lo as usize,
                        hi: hi as usize,
                    })
                }
            },
        },
{
    let t: u32 = if total == 0 {
        1
    } else {
        total
    };
    if rank >= t {
        return Err(SplitError::RankOutOfRange { rank, total: t });
    }
    let (lo, hi): (usize, usize) = even_layer_split(m.num_layers, rank, t);
    if lo >= hi {
        return Err(SplitError::NoLayers { rank, total: t, lo, hi });
    }
    Ok((lo, hi))
}

/// How expert weights are held.
#[derive(Clone, Copy, PartialEq, Eq, Structural, Debug)]
pub enum ExpertsMode {
    /// Dequantised into memory.
    Eager,
    /// Mapped from their files.
    Mmap,
}

/// Why a stage cannot be loaded.
#[derive(Clone, Copy, PartialEq, Eq, Structural, Debug)]
pub enum StagedError {
    NoExpertWorkers,
    ClientDims { hidden: usize, n_routed: usize, n_shared: usize },
    Split(SplitError),
    LayerRange { lo: usize, hi: usize, layers: usize },
}

/// What a rank loads.
#[derive(Clone, Copy, PartialEq, Eq, Structural, Debug)]
pub struct StagePlan {
    pub rank: u32,
    pub total: u32,
    pub lo: usize,
    pub hi: usize,
    pub first: bool,
    pub last: bool,
    pub mode: ExpertsMode,
    pub experts: ExpertSet,
}

/// The last rank for ranks beyond it.
pub open spec fn clamped_rank(rank: u32, total: u32) -> int {
    if rank < ranks(total) {
        rank as int
    } else {
        ranks(total) - 1
    }
}

/// The requested mode, or mapping for more than 32 experts.
pub open spec fn mode_for(requested: Option<Seq<char>>, num_experts: usize) -> ExpertsMode {
    match requested {
        Some(s) if s == "eager"@ => ExpertsMode::Eager,
        Some(s) if s == "mmap"@ => ExpertsMode::Mmap,
        _ => if num_experts > 32 {
            ExpertsMode::Mmap
        } else {
            ExpertsMode::Eager
        },
    }
}

/// The layers that a request asks for: its own range where it gives an end.
pub open spec fn requested_range(
    m: InklingManifest,
    rank: u32,
    total: u32,
    layer_start: u32,
    layer_end: u32,
) -> (int, int) {
    if layer_end > 0 {
        (layer_start as int, layer_end as int)
    } else {
        let r = clamped_rank(rank, total);
        (
            split_point(m.num_layers as int, r, ranks(total)),
            split_point(m.num_layers as int, r + 1, ranks(total)),
        )
    }
}

pub open spec fn client_fault(m: InklingManifest, client: Option<EpClient>) -> Option<StagedError> {
    match client {
        None => None,
        Some(c) => if c.workers() == 0 {
            Some(StagedError::NoExpertWorkers)
        } else if c.width_of_rows() != m.hidden_size || c.routed_ids() != m.num_experts
            || c.shared_ids() != m.n_shared_experts {
            Some(
                StagedError::ClientDims {
                    hidden: c.width_of_rows() as usize,
                    n_routed: c.routed_ids() as usize,
                    n_shared: c.shared_ids() as usize,
                },
            )
        } else {
            None
        },
    }
}

fn experts_mode(requested: Option<&str>, num_experts: usize) -> (mode: ExpertsMode)
    ensures
        mode == mode_for(
            match requested {
                Some(s) => Some(s@),
                None => None,
            },
            num_experts,
        ),
{
    if let Some(s) = requested {
        if same_text(s, "eager") {
            proof {
                reveal_strlit("eager");
                reveal_strlit("mmap");
            }
            return ExpertsMode::Eager;
        }
        if same_text(s, "mmap") {
            return ExpertsMode::Mmap;
        }
    }
    if num_experts > 32 {
        ExpertsMode::Mmap
    } else {
        ExpertsMode::Eager
    }
}

// --------------------------------------------------------------------- running

/// What a rank reports of itself.
#[derive(Clone, Copy, PartialEq, Eq, Structural, Debug)]
pub struct RunnerProfile {
    pub decode_attn_ns: u64,
    pub decode_mlp_ns: u64,
    pub prefill_attn_ns: u64,
    pub prefill_mlp_ns: u64,
    pub cache_hits: u64,
    pub cache_misses: u64,
    pub cache_retained_mib: u64,
    pub cache_capacity_mib: u64,
    pub ov_attn_calls: u64,
    pub ov_attn_ns: u64,
    pub ov_head_calls: u64,
    pub ov_head_ns: u64,
}

/// Time per branch, summed over a rank's layers, in nanoseconds.
#[derive(Clone, Copy, PartialEq, Eq, Structural, Debug)]
pub struct ProfileClocks {
    pub decode_attn_ns: u64,
    pub decode_mlp_ns: u64,
    pub prefill_attn_ns: u64,
    pub prefill_mlp_ns: u64,
}

impl ProfileClocks {
    /// Adds one layer's measurement to the clocks of its phase.
    pub fn observe(&mut self, t: LayerTiming)
        ensures
            *final(self) == if t.prefill {
                ProfileClocks {
                    prefill_attn_ns: old(self).prefill_attn_ns.wrapping_add(t.attention),
                    prefill_mlp_ns: old(self).prefill_mlp_ns.wrapping_add(t.mlp),
                    ..*old(self)
                }
            } else {
                ProfileClocks {
                    decode_attn_ns: old(self).decode_attn_ns.wrapping_add(t.attention),
                    decode_mlp_ns: old(self).decode_mlp_ns.wrapping_add(t.mlp),
                    ..*old(self)
                }
            },
    {
        if t.prefill {
            self.prefill_attn_ns = self.prefill_attn_ns.wrapping_add(t.attention);
            self.prefill_mlp_ns = self.prefill_mlp_ns.wrapping_add(t.mlp);
        } else {
            self.decode_attn_ns = self.decode_attn_ns.wrapping_add(t.attention);
            self.decode_mlp_ns = self.decode_mlp_ns.wrapping_add(t.mlp);
        }
    }
}

/// One rank: its layers, and the positions of its one sequence or of one per open slot.
pub struct InklingRunner {
    pub hidden: usize,
    pub max_seq: usize,
    pub eos: Vec<u32>,
    pub pos: usize,
    /// Per slot the position of its sequence, or nothing where it is free.
    pub streams: Vec<Option<usize>>,
    pub plan: StagePlan,
    pub layers: Vec<Layer>,
    pub profile: Option<ProfileClocks>,
}

impl InklingRunner {
    /// Plans the load of a rank. A client makes the rank an expert-parallel driver:
    /// it opens no expert files, and its dimensions must be the manifest's.
    pub fn load_staged(
        m: &InklingManifest,
        rank: u32,
        total: u32,
        layer_start: u32,
        layer_end: u32,
        requested_mode: Option<&str>,
        remote: Option<&EpClient>,
    ) -> (r: Result<StagePlan, StagedError>)
        ensures
            ({
                let client = match remote {
                    Some(c) => Some(*c),
                    None => None,
                };
                let range = requested_range(*m, rank, total, layer_start, layer_end);
                match r {
                    Ok(p) => {
                        &&& client_fault(*m, client) is None
                        &&& range.0 < range.1 <= m.num_layers
                        &&& p.rank == clamped_rank(rank, total)
                        &&& p.total == ranks(total)
                        &&& p.lo == range.0
                        &&& p.hi == range.1
                        &&& p.first == (p.rank == 0)
                        &&& p.last == (p.rank == p.total - 1)
                        &&& p.mode == mode_for(
                            match requested_mode {
                                Some(s) => Some(s@),
                                None => None,
                            },
                            m.num_experts,
                        )
                        &&& p.experts == if remote is Some {
                            ExpertSet::Empty
                        } else {
                            ExpertSet::All
                        }
                    },
                    Err(e) => {
                        ||| client_fault(*m, client) == Some(e)
                        ||| client_fault(*m, client) is None && !(range.0 < range.1 <= m.num_layers) && {
                            ||| layer_end == 0 && e == StagedError::Split(
                                SplitError::NoLayers {
                                    rank: clamped_rank(rank, total) as u32,
                                    total: ranks(total) as u32,
                                    lo: range.0 as usize,
                                    hi: range.1 as usize,
                                },
                            )
                            ||| layer_end > 0 && e == (StagedError::LayerRange {
                                lo: range.0 as usize,
                                hi: range.1 as usize,
                                layers: m.num_layers,
                            })
                        }
                    },
                }
            }),
    {
        let n: usize = m.num_layers;
        let total_ranks: u32 = if total == 0 {
            1
        } else {
            total
        };
        let own: u32 = if rank < total_ranks {
            rank
        } else {
            total_ranks - 1
        };
        if let Some(c) = remote {
            if c.n_workers() == 0 {
                return Err(StagedError::NoExpertWorkers);
            }
            if c.hidden() != m.hidden_size || c.n_routed() != m.num_experts || c.n_shared()
                != m.n_shared_experts {
                return Err(
                    StagedError::ClientDims {
                        hidden: c.hidden(),
                        n_routed: c.n_routed(),
                        n_shared: c.n_shared(),
                    },
                );
            }
        }
        let (lo, hi): (usize, usize) = if layer_end > 0 {
            (layer_start as usize, layer_end as usize)
        } else {
            match layer_split(m, own, total_ranks) {
                Ok(range) => range,
                Err(e) => return Err(StagedError::Split(e)),
            }
        };
        proof {
            if layer_end == 0 {
                lemma_split_within(n as int, own + 1, total_ranks as int);
            }
        }
        if lo >= hi || hi > n {
            return Err(StagedError::LayerRange { lo, hi, layers: n });
        }
        let mode: ExpertsMode = experts_mode(requested_mode, m.num_experts);
        let experts: ExpertSet = if remote.is_some() {
            ExpertSet::Empty
        } else {
            ExpertSet::All
        };
        Ok(
            StagePlan {
                rank: own,
                total: total_ranks,
                lo,
                hi,
                first: own == 0,
                last: own == total_ranks - 1,
                mode,
                experts,
            },
        )
    }
}

/// The slots with one of them changed.
pub open spec fn with_slot(streams: Seq<Option<usize>>, slot: int, to: Option<usize>) -> Seq<
    Option<usize>,
> {
    streams.update(slot, to)
}

/// Distinct slots, each with an open sequence.
pub open spec fn decodable(streams: Seq<Option<usize>>, slots: Seq<usize>) -> bool {
    &&& forall|i: int|
        0 <= i < slots.len() ==> (#[trigger] slots[i]) < streams.len() && streams[slots[i] as int]
            is Some
    &&& forall|i: int, j: int| 0 <= i < j < slots.len() ==> slots[i] != slots[j]
}

/// Every layer's sequence in `slot` has `n` positions.
pub open spec fn slot_stands_at(layers: Seq<Layer>, slot: int, n: int) -> bool {
    forall|i: int| 0 <= i < layers.len() ==> model::slot_length(#[trigger] layers[i], slot) == n
}

/// Every layer is opened at `slot`.
pub open spec fn layers_opened(
    before: Seq<Layer>,
    after: Seq<Layer>,
    slot: int,
    history: bool,
) -> bool {
    &&& after.len() == before.len()
    &&& forall|i: int|
        0 <= i < after.len() ==> model::slot_opened(
            before[i],
            #[trigger] after[i],
            slot,
            history,
        )
}

impl InklingRunner {
    /// Every layer is sound, of the rank's width, and has a sequence per slot.
    pub open spec fn wf(self) -> bool {
        forall|i: int|
            0 <= i < self.layers.len() ==> {
                &&& (#[trigger] self.layers[i]).wf()
                &&& self.layers[i].hidden == self.hidden
                &&& self.streams.len() <= self.layers[i].attn.slots.len()
            }
    }

    /// Every open slot's sequence is at its recorded position in every layer.
    pub open spec fn in_step(self) -> bool {
        forall|s: int|
            0 <= s < self.streams.len() && (#[trigger] self.streams[s]) is Some ==> slot_stands_at(
                self.layers@,
                s,
                self.streams[s]->0 as int,
            )
    }

    pub fn new(m: &InklingManifest, max_seq: usize, plan: StagePlan, layers: Vec<Layer>) -> (r: Self)
        requires
            forall|i: int|
                0 <= i < layers.len() ==> (#[trigger] layers[i]).wf() && layers[i].hidden
                    == m.hidden_size,
        ensures
            r.wf(),
            r.in_step(),
            r.hidden == m.hidden_size,
            r.max_seq == max_seq,
            r.eos@ == m.eos_token_ids@,
            r.pos == 0,
            r.streams.len() == 0,
            r.plan == plan,
            r.layers == layers,
            r.profile is None,
    {
        let eos: Vec<u32> = m.eos_token_ids.clone();
        proof {
            assert(eos@ =~= m.eos_token_ids@);
        }
        InklingRunner {
            hidden: m.hidden_size,
            max_seq,
            eos,
            pos: 0,
            streams: Vec::new(),
            plan,
            layers,
            profile: None,
        }
    }

    /// Serves the experts of every routed layer on the workers, each under its number in
    /// the whole model.
    pub fn attach_remote(&mut self, client: &EpClient)
        requires
            old(self).wf(),
            old(self).plan.lo + old(self).layers.len() <= u32::MAX,
            forall|i: int|
                0 <= i < old(self).layers.len() ==> (#[trigger] old(self).layers[i]).remote_fits(
                    client.width_of_rows(),
                    client.routed_ids(),
                    client.shared_ids(),
                ),
        ensures
            final(self).wf(),
            old(self).in_step() ==> final(self).in_step(),
            *final(self) == (InklingRunner { layers: final(self).layers, ..*old(self) }),
            final(self).layers.len() == old(self).layers.len(),
            forall|i: int|
                0 <= i < final(self).layers.len() ==> #[trigger] final(self).layers[i]
                    == model::remote_attached(old(self).layers[i], (old(self).plan.lo + i) as u32),
    {
        let mut i: usize = 0;
        while i < self.layers.len()
            invariant
                old(self).wf(),
                self.wf(),
                i <= self.layers.len(),
                self.plan.lo + self.layers.len() <= u32::MAX,
                *self == (InklingRunner { layers: self.layers, ..*old(self) }),
                self.layers.len() == old(self).layers.len(),
                forall|x: int|
                    0 <= x < self.layers.len() ==> (#[trigger] old(self).layers[x]).remote_fits(
                        client.width_of_rows(),
                        client.routed_ids(),
                        client.shared_ids(),
                    ),
                forall|x: int|
                    0 <= x < i ==> #[trigger] self.layers[x] == model::remote_attached(
                        old(self).layers[x],
                        (old(self).plan.lo + x) as u32,
                    ),
                forall|x: int|
                    i <= x < self.layers.len() ==> #[trigger] self.layers[x] == old(self).layers[x],
            decreases self.layers.len() - i,
        {
            self.layers[i].attach_remote(
                (self.plan.lo + i) as u32,
                client.hidden(),
                client.n_routed(),
                client.n_shared(),
            );
            i += 1;
        }
        proof {
            if old(self).in_step() {
                assert forall|s: int|
                    0 <= s < self.streams.len() && (
                    #[trigger] self.streams[s]) is Some implies slot_stands_at(
                    self.layers@,
                    s,
                    self.streams[s]->0 as int,
                ) by {
                    assert(old(self).streams[s] == self.streams[s]);
                    assert forall|i: int| 0 <= i < self.layers.len() implies model::slot_length(
                        #[trigger] self.layers@[i],
                        s,
                    ) == self.streams[s]->0 by {
                        assert(model::slot_length(old(self).layers@[i], s) == self.streams[s]->0);
                    }
                }
            }
        }
    }

    pub fn arch_name(&self) -> (name: &'static str)
        ensures
            name@ == "inkling"@,
    {
        "inkling"
    }

    pub fn hidden_size(&self) -> (n: usize)
        ensures
            n == self.hidden,
    {
        self.hidden
    }

    pub fn max_seq(&self) -> (n: usize)
        ensures
            n == self.max_seq,
    {
        self.max_seq
    }

    pub fn eos_token_ids(&self) -> (t: &[u32])
        ensures
            t@ == self.eos@,
    {
        self.eos.as_slice()
    }

    /// A prompt may be fed in batches.
    pub fn supports_batched_prefill(&self) -> (b: bool)
        ensures
            b,
    {
        true
    }

    /// Starts a new sequence on the single-sequence path.
    pub fn reset(&mut self, reset_history: bool)
        requires
            old(self).wf(),
        ensures
            final(self).wf(),
            *final(self) == (InklingRunner {
                pos: 0,
                layers: final(self).layers,
                ..*old(self)
            }),
            final(self).layers.len() == old(self).layers.len(),
            forall|i: int|
                0 <= i < final(self).layers.len() ==> model::layer_reset(
                    old(self).layers[i],
                    #[trigger] final(self).layers[i],
                    reset_history,
                ),
    {
        self.pos = 0;
        let mut i: usize = 0;
        while i < self.layers.len()
            invariant
                i <= self.layers.len(),
                self.wf(),
                *self == (InklingRunner { pos: 0, layers: self.layers, ..*old(self) }),
                self.layers.len() == old(self).layers.len(),
                forall|x: int|
                    0 <= x < i ==> model::layer_reset(
                        old(self).layers[x],
                        #[trigger] self.layers[x],
                        reset_history,
                    ),
                forall|x: int|
                    i <= x < self.layers.len() ==> #[trigger] self.layers[x] == old(self).layers[x],
            decreases self.layers.len() - i,
        {
            self.layers[i].reset(reset_history);
            i += 1;
        }
    }

    /// One more position; the layers have computed it.
    pub fn forward_layers(&mut self, pos: usize)
        requires
            pos == old(self).pos,
            old(self).pos < usize::MAX,
        ensures
            *final(self) == (InklingRunner { pos: (old(self).pos + 1) as usize, ..*old(self) }),
    {
        self.pos = self.pos + 1;
    }

    /// `rows` more positions; the layers have computed them.
    pub fn forward_layers_batch(&mut self, hidden_len: usize, base: usize, rows: usize)
        requires
            base == old(self).pos,
            hidden_len == rows * old(self).hidden,
            old(self).pos + rows <= usize::MAX,
        ensures
            *final(self) == (InklingRunner { pos: (old(self).pos + rows) as usize, ..*old(self) }),
    {
        self.pos = self.pos + rows;
    }

    /// Starts the stage's clocks; a second call changes nothing.
    pub fn enable_profile(&mut self)
        ensures
            *final(self) == (InklingRunner {
                profile: match old(self).profile {
                    Some(c) => Some(c),
                    None => Some(
                        ProfileClocks {
                            decode_attn_ns: 0,
                            decode_mlp_ns: 0,
                            prefill_attn_ns: 0,
                            prefill_mlp_ns: 0,
                        },
                    ),
                },
                ..*old(self)
            }),
    {
        if self.profile.is_none() {
            self.profile = Some(
                ProfileClocks {
                    decode_attn_ns: 0,
                    decode_mlp_ns: 0,
                    prefill_attn_ns: 0,
                    prefill_mlp_ns: 0,
                },
            );
        }
    }

    /// The cache counters of the rank's layers, added up.
    pub fn expert_cache_stats_total(&self) -> (t: ExpertCacheStats)
        requires
            model::totals_fit(model::moe_stats(self.layers@)),
        ensures
            model::totals_are(t, model::moe_stats(self.layers@)),
    {
        layers_cache_stats(self.layers.as_slice())
    }

    /// What a profile is made of: the clocks, the counters of the caches and those of the
    /// device backends.
    pub open spec fn profile_of(
        c: ProfileClocks,
        cache: ExpertCacheStats,
        attn: Option<OvAttnStats>,
        head: Option<OvHeadStats>,
    ) -> RunnerProfile {
        RunnerProfile {
            decode_attn_ns: c.decode_attn_ns,
            decode_mlp_ns: c.decode_mlp_ns,
            prefill_attn_ns: c.prefill_attn_ns,
            prefill_mlp_ns: c.prefill_mlp_ns,
            cache_hits: cache.hits,
            cache_misses: cache.misses,
            cache_retained_mib: (cache.retained_bytes as int / 1_048_576) as u64,
            cache_capacity_mib: (cache.capacity_bytes as int / 1_048_576) as u64,
            ov_attn_calls: match attn {
                Some(a) => a.calls,
                None => 0,
            },
            ov_attn_ns: match attn {
                Some(a) => a.call_ns,
                None => 0,
            },
            ov_head_calls: match head {
                Some(h) => h.calls,
                None => 0,
            },
            ov_head_ns: match head {
                Some(h) => h.call_ns,
                None => 0,
            },
        }
    }

    /// The rank's profile: its clocks, the counters of its caches and those of the device
    /// backends that are attached. Nothing where no profile was asked for.
    pub fn profile(&self, attn: Option<OvAttnStats>, head: Option<OvHeadStats>) -> (p: Option<
        RunnerProfile,
    >)
        requires
            model::totals_fit(model::moe_stats(self.layers@)),
        ensures
            p is Some <==> self.profile is Some,
            p is Some ==> exists|cache: ExpertCacheStats|
                #[trigger] model::totals_are(cache, model::moe_stats(self.layers@)) && p == Some(
                    Self::profile_of(self.profile->0, cache, attn, head),
                ),
    {
        match self.profile {
            None => None,
            Some(c) => {
                let cache: ExpertCacheStats = self.expert_cache_stats_total();
                let (attn_calls, attn_ns): (u64, u64) = match attn {
                    Some(a) => (a.calls, a.call_ns),
                    None => (0, 0),
                };
                let (head_calls, head_ns): (u64, u64) = match head {
                    Some(h) => (h.calls, h.call_ns),
                    None => (0, 0),
                };
                Some(
                    RunnerProfile {
                        decode_attn_ns: c.decode_attn_ns,
                        decode_mlp_ns: c.decode_mlp_ns,
                        prefill_attn_ns: c.prefill_attn_ns,
                        prefill_mlp_ns: c.prefill_mlp_ns,
                        cache_hits: cache.hits,
                        cache_misses: cache.misses,
                        cache_retained_mib: (cache.retained_bytes / 1_048_576) as u64,
                        cache_capacity_mib: (cache.capacity_bytes / 1_048_576) as u64,
                        ov_attn_calls: attn_calls,
                        ov_attn_ns: attn_ns,
                        ov_head_calls: head_calls,
                        ov_head_ns: head_ns,
                    },
                )
            },
        }
    }

    pub fn stream_capacity(&self) -> (n: usize)
        ensures
            n == self.streams.len(),
    {
        self.streams.len()
    }

    /// Grows the pool to `n` slots, in every layer; new ones are free. Nothing for zero.
    pub fn configure_streams(&mut self, n: usize) -> (ok: bool)
        requires
            old(self).wf(),
        ensures
            final(self).wf(),
            old(self).in_step() ==> final(self).in_step(),
            ok == (n > 0),
            *final(self) == (InklingRunner {
                streams: final(self).streams,
                layers: final(self).layers,
                ..*old(self)
            }),
            final(self).layers.len() == old(self).layers.len(),
            forall|i: int|
                0 <= i < final(self).layers.len() ==> if n > 0 {
                    model::slots_grown(
                        old(self).layers[i],
                        #[trigger] final(self).layers[i],
                        n as nat,
                    )
                } else {
                    final(self).layers[i] == old(self).layers[i]
                },
            final(self).streams@ == old(self).streams@ + Seq::new(
                if n > old(self).streams.len() {
                    (n - old(self).streams.len()) as nat
                } else {
                    0
                },
                |i: int| None::<usize>,
            ),
    {
        let ghost before = self.streams@;
        proof {
            assert(before =~= before + Seq::new(0, |i: int| None::<usize>));
        }
        if n == 0 {
            return false;
        }
        let mut i: usize = 0;
        while i < self.layers.len()
            invariant
                old(self).wf(),
                self.wf(),
                i <= self.layers.len(),
                *self == (InklingRunner { layers: self.layers, ..*old(self) }),
                self.layers.len() == old(self).layers.len(),
                forall|x: int|
                    0 <= x < i ==> model::slots_grown(
                        old(self).layers[x],
                        #[trigger] self.layers[x],
                        n as nat,
                    ),
                forall|x: int|
                    i <= x < self.layers.len() ==> #[trigger] self.layers[x] == old(self).layers[x],
            decreases self.layers.len() - i,
        {
            self.layers[i].ensure_slots(n);
            i += 1;
        }
        let ghost grown = self.layers;
        while self.streams.len() < n
            invariant
                *self == (InklingRunner { streams: self.streams, layers: grown, ..*old(self) }),
                before == old(self).streams@,
                before.len() <= self.streams.len(),
                self.streams.len() <= n || self.streams.len() == before.len(),
                self.streams@ == before + Seq::new(
                    (self.streams.len() - before.len()) as nat,
                    |i: int| None::<usize>,
                ),
            decreases n - self.streams.len(),
        {
            self.streams.push(None);
            proof {
                assert(self.streams@ =~= before + Seq::new(
                    (self.streams.len() - before.len()) as nat,
                    |i: int| None::<usize>,
                ));
            }
        }
        proof {
            if old(self).in_step() {
                assert forall|s: int|
                    0 <= s < self.streams.len() && (
                    #[trigger] self.streams[s]) is Some implies slot_stands_at(
                    self.layers@,
                    s,
                    self.streams[s]->0 as int,
                ) by {
                    assert(old(self).streams[s] == self.streams[s]);
                    assert forall|i: int| 0 <= i < self.layers.len() implies model::slot_length(
                        #[trigger] self.layers@[i],
                        s,
                    ) == self.streams[s]->0 by {
                        assert(model::slot_length(old(self).layers@[i], s) == self.streams[s]->0);
                        assert(model::slot_same(old(self).layers[i], self.layers[i], s));
                    }
                }
            }
        }
        true
    }

    /// Starts a new sequence in `slot`, in every layer.
    fn open_layers(&mut self, slot: usize, reset_history: bool)
        requires
            old(self).wf(),
            slot < old(self).streams.len(),
        ensures
            final(self).wf(),
            *final(self) == (InklingRunner {
                streams: final(self).streams,
                layers: final(self).layers,
                ..*old(self)
            }),
            layers_opened(
                old(self).layers@,
                final(self).layers@,
                slot as int,
                reset_history,
            ),
            final(self).streams@ == with_slot(old(self).streams@, slot as int, Some(0usize)),
            old(self).in_step() ==> final(self).in_step(),
    {
        let mut i: usize = 0;
        while i < self.layers.len()
            invariant
                old(self).wf(),
                self.wf(),
                slot < self.streams.len(),
                i <= self.layers.len(),
                *self == (InklingRunner { layers: self.layers, ..*old(self) }),
                self.layers.len() == old(self).layers.len(),
                forall|x: int|
                    0 <= x < i ==> model::slot_opened(
                        old(self).layers[x],
                        #[trigger] self.layers[x],
                        slot as int,
                        reset_history,
                    ),
                forall|x: int|
                    i <= x < self.layers.len() ==> #[trigger] self.layers[x] == old(self).layers[x],
            decreases self.layers.len() - i,
        {
            self.layers[i].open_slot(slot, reset_history);
            i += 1;
        }
        self.streams.set(slot, Some(0));
        proof {
            if old(self).in_step() {
                assert forall|s: int|
                    0 <= s < self.streams.len() && (
                    #[trigger] self.streams[s]) is Some implies slot_stands_at(
                    self.layers@,
                    s,
                    self.streams[s]->0 as int,
                ) by {
                    assert forall|i: int| 0 <= i < self.layers.len() implies model::slot_length(
                        #[trigger] self.layers@[i],
                        s,
                    ) == self.streams[s]->0 by {
                        if s != slot {
                            assert(old(self).streams[s] == self.streams[s]);
                            assert(model::slot_length(old(self).layers@[i], s)
                                == self.streams[s]->0);
                            assert(model::slot_same(old(self).layers[i], self.layers[i], s));
                        } else {
                            assert(model::slot_fresh(self.layers[i], s));
                        }
                    }
                }
            }
        }
    }

    /// Opens the first free slot at position zero.
    pub fn open_stream(&mut self, reset_history: bool) -> (slot: Option<usize>)
        requires
            old(self).wf(),
        ensures
            final(self).wf(),
            old(self).in_step() ==> final(self).in_step(),
            match slot {
                None => *final(self) == *old(self) && forall|i: int|
                    0 <= i < old(self).streams.len() ==> (#[trigger] old(self).streams[i]) is Some,
                Some(s) => {
                    &&& s < old(self).streams.len()
                    &&& old(self).streams[s as int] is None
                    &&& forall|i: int| 0 <= i < s ==> (#[trigger] old(self).streams[i]) is Some
                    &&& *final(self) == (InklingRunner {
                        streams: final(self).streams,
                        layers: final(self).layers,
                        ..*old(self)
                    })
                    &&& layers_opened(
                        old(self).layers@,
                        final(self).layers@,
                        s as int,
                        reset_history,
                    )
                    &&& final(self).streams@ == with_slot(
                        old(self).streams@,
                        s as int,
                        Some(0usize),
                    )
                },
            },
    {
        let mut s: usize = 0;
        while s < self.streams.len()
            invariant
                *self == *old(self),
                old(self).wf(),
                s <= self.streams.len(),
                forall|i: int| 0 <= i < s ==> (#[trigger] self.streams[i]) is Some,
            decreases self.streams.len() - s,
        {
            if self.streams[s].is_none() {
                self.open_layers(s, reset_history);
                return Some(s);
            }
            s += 1;
        }
        None
    }

    /// Opens a slot at position zero, whether or not it was free.
    pub fn open_stream_at(&mut self, slot: usize, reset_history: bool) -> (ok: bool)
        requires
            old(self).wf(),
        ensures
            final(self).wf(),
            old(self).in_step() ==> final(self).in_step(),
            ok == (slot < old(self).streams.len()),
            !ok ==> *final(self) == *old(self),
            ok ==> {
                &&& *final(self) == (InklingRunner {
                    streams: final(self).streams,
                    layers: final(self).layers,
                    ..*old(self)
                })
                &&& layers_opened(
                    old(self).layers@,
                    final(self).layers@,
                    slot as int,
                    reset_history,
                )
                &&& final(self).streams@ == with_slot(
                    old(self).streams@,
                    slot as int,
                    Some(0usize),
                )
            },
    {
        if slot >= self.streams.len() {
            return false;
        }
        self.open_layers(slot, reset_history);
        true
    }

    /// Frees a slot; a slot beyond the pool is ignored.
    pub fn close_stream(&mut self, slot: usize)
        ensures
            old(self).wf() ==> final(self).wf(),
            old(self).in_step() ==> final(self).in_step(),
            *final(self) == (InklingRunner { streams: final(self).streams, ..*old(self) }),
            final(self).streams@ == if slot < old(self).streams.len() {
                with_slot(old(self).streams@, slot as int, None)
            } else {
                old(self).streams@
            },
    {
        if slot < self.streams.len() {
            self.streams.set(slot, None);
        }
        proof {
            if old(self).in_step() {
                assert forall|s: int|
                    0 <= s < self.streams.len() && (
                    #[trigger] self.streams[s]) is Some implies slot_stands_at(
                    self.layers@,
                    s,
                    self.streams[s]->0 as int,
                ) by {
                    assert(old(self).streams[s] == self.streams[s]);
                }
            }
        }
    }

    /// The position of a slot's sequence; zero where there is none.
    pub fn stream_pos(&self, slot: usize) -> (n: usize)
        ensures
            n == if slot < self.streams.len() && self.streams[slot as int] is Some {
                self.streams[slot as int]->0
            } else {
                0
            },
    {
        if slot < self.streams.len() {
            match self.streams[slot] {
                Some(n) => n,
                None => 0,
            }
        } else {
            0
        }
    }

    /// Makes the sequence of an open slot the live one in every layer, before its rows are
    /// computed.
    pub fn select_stream(&mut self, slot: usize)
        requires
            old(self).wf(),
            slot < old(self).streams.len(),
        ensures
            final(self).wf(),
            old(self).in_step() ==> final(self).in_step(),
            *final(self) == (InklingRunner { layers: final(self).layers, ..*old(self) }),
            final(self).layers.len() == old(self).layers.len(),
            forall|i: int|
                0 <= i < final(self).layers.len() ==> (#[trigger] final(self).layers[i]).attn.live
                    == slot,
            forall|i: int, s: int|
                0 <= i < final(self).layers.len() && 0 <= s < old(self).layers[i].attn.slots.len()
                    ==> #[trigger] model::slot_same(old(self).layers[i], final(self).layers[i], s),
    {
        let mut i: usize = 0;
        while i < self.layers.len()
            invariant
                old(self).wf(),
                self.wf(),
                slot < self.streams.len(),
                i <= self.layers.len(),
                *self == (InklingRunner { layers: self.layers, ..*old(self) }),
                self.layers.len() == old(self).layers.len(),
                forall|x: int| 0 <= x < i ==> (#[trigger] self.layers[x]).attn.live == slot,
                forall|x: int, s: int|
                    0 <= x < i && 0 <= s < old(self).layers[x].attn.slots.len()
                        ==> #[trigger] model::slot_same(old(self).layers[x], self.layers[x], s),
                forall|x: int|
                    i <= x < self.layers.len() ==> #[trigger] self.layers[x] == old(self).layers[x],
            decreases self.layers.len() - i,
        {
            self.layers[i].select_slot(slot);
            i += 1;
        }
        proof {
            if old(self).in_step() {
                assert forall|s: int|
                    0 <= s < self.streams.len() && (
                    #[trigger] self.streams[s]) is Some implies slot_stands_at(
                    self.layers@,
                    s,
                    self.streams[s]->0 as int,
                ) by {
                    assert(old(self).streams[s] == self.streams[s]);
                    assert forall|i: int| 0 <= i < self.layers.len() implies model::slot_length(
                        #[trigger] self.layers@[i],
                        s,
                    ) == self.streams[s]->0 by {
                        assert(model::slot_length(old(self).layers@[i], s) == self.streams[s]->0);
                        assert(model::slot_same(old(self).layers[i], self.layers[i], s));
                    }
                }
            }
        }
    }

    /// Advances an open slot by `rows` positions; the layers have computed them.
    pub fn prefill_stream(&mut self, slot: usize, hidden_len: usize, rows: usize)
        requires
            slot < old(self).streams.len(),
            old(self).streams[slot as int] is Some,
            hidden_len == rows * old(self).hidden,
            old(self).streams[slot as int]->0 + rows <= usize::MAX,
        ensures
            *final(self) == (InklingRunner { streams: final(self).streams, ..*old(self) }),
            final(self).streams@ == with_slot(
                old(self).streams@,
                slot as int,
                Some((old(self).streams[slot as int]->0 + rows) as usize),
            ),
    {
        let pos: usize = self.streams[slot].unwrap();
        self.streams.set(slot, Some(pos + rows));
    }

    /// Advances each of these open slots by one position; the layers have computed them.
    pub fn decode_streams(&mut self, hidden_len: usize, slots: &[usize])
        requires
            hidden_len == slots.len() * old(self).hidden,
            decodable(old(self).streams@, slots@),
            forall|i: int|
                0 <= i < slots.len() ==> old(self).streams[(#[trigger] slots[i]) as int]->0
                    < usize::MAX,
        ensures
            *final(self) == (InklingRunner { streams: final(self).streams, ..*old(self) }),
            final(self).streams.len() == old(self).streams.len(),
            forall|s: int|
                0 <= s < old(self).streams.len() ==> (#[trigger] final(self).streams[s])
                    == if slots@.contains(s as usize) {
                    Some((old(self).streams[s]->0 + 1) as usize)
                } else {
                    old(self).streams[s]
                },
    {
        let mut i: usize = 0;
        while i < slots.len()
            invariant
                i <= slots.len(),
                *self == (InklingRunner { streams: self.streams, ..*old(self) }),
                self.streams.len() == old(self).streams.len(),
                decodable(old(self).streams@, slots@),
                forall|i: int|
                    0 <= i < slots.len() ==> old(self).streams[(#[trigger] slots[i]) as int]->0
                        < usize::MAX,
                forall|s: int|
                    0 <= s < self.streams.len() ==> (#[trigger] self.streams[s]) == if slots@.take(
                        i as int,
                    ).contains(s as usize) {
                        Some((old(self).streams[s]->0 + 1) as usize)
                    } else {
                        old(self).streams[s]
                    },
            decreases slots.len() - i,
        {
            let s: usize = slots[i];
            let ghost head = slots@.take(i as int);
            let ghost longer = slots@.take(i + 1);
            proof {
                assert(longer =~= head.push(s));
                assert(!head.contains(s)) by {
                    if head.contains(s) {
                        let j = choose|j: int| 0 <= j < head.len() && head[j] == s;
                        assert(slots@[j] == slots@[i as int]);
                    }
                }
                assert(longer[i as int] == s);
                assert forall|x: usize| x != s implies longer.contains(x) == head.contains(x) by {
                    if head.contains(x) {
                        let j = choose|j: int| 0 <= j < head.len() && head[j] == x;
                        assert(longer[j] == x);
                    }
                    if longer.contains(x) {
                        let j = choose|j: int| 0 <= j < longer.len() && longer[j] == x;
                        assert(head[j] == x);
                    }
                }
            }
            let pos: usize = self.streams[s].unwrap();
            self.streams.set(s, Some(pos + 1));
            i += 1;
        }
        proof {
            assert(slots@.take(slots.len() as int) =~= slots@);
        }
    }

    /// Whether a step may decode these slots together.
    pub fn streams_decodable(&self, slots: &[usize]) -> (b: bool)
        ensures
            b == decodable(self.streams@, slots@),
    {
        let mut i: usize = 0;
        while i < slots.len()
            invariant
                i <= slots.len(),
                forall|x: int|
                    0 <= x < i ==> (#[trigger] slots[x]) < self.streams.len()
                        && self.streams[slots[x] as int] is Some,
                forall|x: int, y: int| 0 <= x < y < i ==> slots[x] != slots[y],
            decreases slots.len() - i,
        {
            if slots[i] >= self.streams.len() || self.streams[slots[i]].is_none() {
                assert(!(slots[i as int] < self.streams.len() && self.streams[slots[i as int] as int]
                    is Some));
                return false;
            }
            let mut j: usize = 0;
            while j < i
                invariant
                    j <= i < slots.len(),
                    forall|x: int| 0 <= x < j ==> slots[x] != slots[i as int],
                decreases i - j,
            {
                if slots[j] == slots[i] {
                    assert(slots@[j as int] == slots@[i as int]);
                    return false;
                }
                j += 1;
            }
            i += 1;
        }
        true
    }
}

/// Decoding a set of slots leaves every other slot's sequence where it was.
pub proof fn law_streams_are_independent(
    before: Seq<Option<usize>>,
    after: Seq<Option<usize>>,
    slots: Seq<usize>,
    other: int,
)
    requires
        after.len() == before.len() <= usize::MAX,
        forall|s: int|
            0 <= s < before.len() ==> (#[trigger] after[s]) == if slots.contains(s as usize) {
                Some((before[s]->0 + 1) as usize)
            } else {
                before[s]
            },
        0 <= other < before.len(),
        !slots.contains(other as usize),
    ensures
        after[other] == before[other],
{
}

/// Opening a slot starts a sequence that has consumed nothing in every layer, and leaves
/// every other slot's sequence as it was.
pub proof fn law_an_opened_slot_starts_fresh(
    before: Seq<Layer>,
    after: Seq<Layer>,
    slot: int,
    history: bool,
    i: int,
    other: int,
)
    requires
        layers_opened(before, after, slot, history),
        0 <= i < before.len(),
        0 <= other < before[i].attn.slots.len(),
        other != slot,
    ensures
        model::slot_fresh(after[i], slot),
        model::slot_length(after[i], slot) == 0,
        model::slot_same(before[i], after[i], other),
{
    assert(model::slot_opened(before[i], after[i], slot, history));
}

/// Advancing an open slot by what its layers computed keeps every open slot in step.
pub proof fn law_advanced_streams_stay_in_step(before: InklingRunner, after: InklingRunner)
    requires
        before.in_step(),
        after.layers.len() == before.layers.len(),
        after.streams.len() == before.streams.len(),
        forall|s: int|
            0 <= s < after.streams.len() ==> ((#[trigger] after.streams[s]) is Some
                <==> before.streams[s] is Some),
        forall|i: int, s: int|
            0 <= i < after.layers.len() && 0 <= s < after.streams.len() && after.streams[s] is Some
                ==> #[trigger] model::slot_length(after.layers[i], s) - model::slot_length(
                before.layers[i],
                s,
            ) == after.streams[s]->0 - before.streams[s]->0,
    ensures
        after.in_step(),
{
    assert forall|s: int|
        0 <= s < after.streams.len() && (
        #[trigger] after.streams[s]) is Some implies slot_stands_at(
        after.layers@,
        s,
        after.streams[s]->0 as int,
    ) by {
        assert(before.streams[s] is Some);
        assert forall|i: int| 0 <= i < after.layers.len() implies model::slot_length(
            #[trigger] after.layers@[i],
            s,
        ) == after.streams[s]->0 by {
            assert(model::slot_length(before.layers@[i], s) == before.streams[s]->0);
            assert(model::slot_length(after.layers[i], s) - model::slot_length(
                before.layers[i],
                s,
            ) == after.streams[s]->0 - before.streams[s]->0);
        }
    }
}

/// Layers that do not divide evenly go to the first ranks: no later rank owns more than
/// an earlier one.
pub proof fn law_earlier_ranks_own_no_less(n: int, t: int, a: int, b: int)
    requires
        0 <= n,
        0 < t,
        0 <= a <= b < t,
    ensures
        split_point(n, a + 1, t) - split_point(n, a, t) >= split_point(n, b + 1, t) - split_point(
            n,
            b,
            t,
        ),
        split_point(n, a + 1, t) - split_point(n, a, t) == if a < n % t {
            n / t + 1
        } else {
            n / t
        },
{
    let q = n / t;
    assert((a + 1) * q == a * q + q) by (nonlinear_arith);
    assert((b + 1) * q == b * q + q) by (nonlinear_arith);
}

/// There is at least one rank, and a rank beyond the last counts as the last.
pub proof fn law_ranks_are_clamped(rank: u32, total: u32)
    ensures
        total == 0 ==> ranks(total) == 1 && clamped_rank(rank, total) == 0,
        total > 0 ==> ranks(total) == total,
        rank < total ==> clamped_rank(rank, total) == rank,
        0 < total <= rank ==> clamped_rank(rank, total) == total - 1,
{
}

/// Experts are mapped where that is asked for, loaded where that is, and otherwise
/// mapped just where there are more than 32 of them.
pub proof fn law_expert_modes(requested: Option<Seq<char>>, num_experts: usize)
    ensures
        requested == Some("eager"@) ==> mode_for(requested, num_experts) is Eager,
        requested == Some("mmap"@) ==> mode_for(requested, num_experts) is Mmap,
        requested != Some("eager"@) && requested != Some("mmap"@) ==> (mode_for(
            requested,
            num_experts,
        ) is Mmap <==> num_experts > 32),
        mode_for(requested, num_experts) is Mmap || mode_for(requested, num_experts) is Eager,
{
    reveal_strlit("eager");
    reveal_strlit("mmap");
    assert("eager"@[0] != "mmap"@[0]);
}

/// A rank runs the layers that are asked for; where none are, its even share.
pub proof fn law_layers_of_a_rank(
    m: InklingManifest,
    rank: u32,
    total: u32,
    layer_start: u32,
    layer_end: u32,
)
    ensures
        layer_end > 0 ==> requested_range(m, rank, total, layer_start, layer_end) == (
            layer_start as int,
            layer_end as int,
        ),
        layer_end == 0 && total <= 1 ==> requested_range(m, rank, total, layer_start, layer_end)
            == (0int, m.num_layers as int),
        layer_end == 0 && rank < total ==> {
            let (lo, hi) = requested_range(m, rank, total, layer_start, layer_end);
            &&& lo == split_point(m.num_layers as int, rank as int, total as int)
            &&& hi == split_point(m.num_layers as int, rank + 1, total as int)
        },
{
    law_even_split_covers_the_layers(m.num_layers as int, 1, 0, 0);
}

/// Workers serve a model only where there are some and they agree with it on the width of
/// a row and the number of experts of both kinds.
pub proof fn law_clients_that_fit(m: InklingManifest, c: EpClient)
    ensures
        client_fault(m, None) is None,
        client_fault(m, Some(c)) is None <==> c.workers() > 0 && c.width_of_rows() == m.hidden_size
            && c.routed_ids() == m.num_experts && c.shared_ids() == m.n_shared_experts,
{
}

/// A batch decodes slots that are open, each once.
pub proof fn law_slots_that_decode(streams: Seq<Option<usize>>, slots: Seq<usize>, i: int, j: int)
    requires
        decodable(streams, slots),
        0 <= i < j < slots.len(),
    ensures
        slots[i] != slots[j],
        slots[i] < streams.len() && streams[slots[i] as int] is Some,
{
}

/// A profile tells each clock and counter under its own name, memory in whole mebibytes,
/// and zeros for a backend that is not there.
pub proof fn law_a_profile_tells_each_counter(
    c: ProfileClocks,
    cache: ExpertCacheStats,
    attn: Option<OvAttnStats>,
    head: Option<OvHeadStats>,
)
    ensures
        ({
            let p = InklingRunner::profile_of(c, cache, attn, head);
            &&& p.decode_attn_ns == c.decode_attn_ns && p.decode_mlp_ns == c.decode_mlp_ns
            &&& p.prefill_attn_ns == c.prefill_attn_ns && p.prefill_mlp_ns == c.prefill_mlp_ns
            &&& p.cache_hits == cache.hits && p.cache_misses == cache.misses
            &&& p.cache_retained_mib * 1_048_576 <= cache.retained_bytes < (p.cache_retained_mib
                + 1) * 1_048_576
            &&& p.cache_capacity_mib * 1_048_576 <= cache.capacity_bytes < (p.cache_capacity_mib
                + 1) * 1_048_576
            &&& attn matches Some(a) ==> p.ov_attn_calls == a.calls && p.ov_attn_ns == a.call_ns
            &&& attn is None ==> p.ov_attn_calls == 0 && p.ov_attn_ns == 0
            &&& head matches Some(h) ==> p.ov_head_calls == h.calls && p.ov_head_ns == h.call_ns
            &&& head is None ==> p.ov_head_calls == 0 && p.ov_head_ns == 0
        }),
{
}

/// Setting one slot leaves the others.
pub proof fn law_setting_a_slot_leaves_the_others(
    streams: Seq<Option<usize>>,
    slot: int,
    to: Option<usize>,
    other: int,
)
    requires
        0 <= slot < streams.len(),
        0 <= other < streams.len(),
    ensures
        with_slot(streams, slot, to).len() == streams.len(),
        with_slot(streams, slot, to)[slot] == to,
        other != slot ==> with_slot(streams, slot, to)[other] == streams[other],
{
}

} // verus!
