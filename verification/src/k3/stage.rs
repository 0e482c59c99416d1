//! One pipeline stage of a K3 model: what it owns, what it carries between tokens, and
//! how activations travel on the wire.
//!
//! The wire holds the prefix sum followed by every block slot, live or not. The first
//! rank embeds, the last one has the head; a rank knows how many blocks are live from
//! its first layer alone.
use vstd::prelude::*;

use crate::arith;
use crate::inkling::ffn;
use crate::inkling::stage::{self, even_layer_split};
use crate::k3::loader::{self, K3Manifest};
use crate::k3::model::{self, blocks_at, max_blocks, LayerState, Residual};
use crate::k3::prefix_store::{self, PrefixStore};
use crate::k3::prof::{note_prefix_hit, new_sequence, Prof};
use crate::k3::residency::{self, UsageStats};

verus! {

/// Context length where none is set.
pub const K3_DEFAULT_MAX_SEQ: usize = 4096;

/// Bytes kept back per layer for its weights and its state.
pub const LAYER_RESERVE: u64 = 1_200_000_000;

/// One stage.
pub struct K3Runner {
    pub m: K3Manifest,
    /// Routed experts per token of each layer; nothing for a dense layer.
    pub widths: Vec<Option<usize>>,
    pub states: Vec<LayerState>,
    /// First layer of this rank.
    pub lo: usize,
    pub rank: u32,
    /// This rank embeds.
    pub first: bool,
    /// This rank has the head.
    pub last: bool,
    pub hidden: usize,
    pub wire: usize,
    pub max_blocks: usize,
    pub max_seq: usize,
    pub eos: Vec<u32>,
    pub pinned: usize,
    /// Tokens that the states have consumed.
    pub pos: usize,
    pub prefix: PrefixStore,
}

/// A model that a machine can hold.
pub open spec fn loadable(m: K3Manifest) -> bool {
    &&& m.attn_res_block_size > 0
    &&& m.conv_size > 0
    &&& m.num_heads * m.head_dim <= usize::MAX
    &&& model::window_len(m.kda_shape()) <= usize::MAX
    &&& model::recurrent_len(m.kda_shape()) <= usize::MAX
    &&& (1 + arith::ceil_div(m.num_hidden_layers as int, m.attn_res_block_size as int))
        * m.hidden_size <= usize::MAX
}

/// The width of layer `i`.
pub open spec fn width_at(m: K3Manifest, i: int) -> Option<usize> {
    if i >= m.first_k_dense_replace {
        Some(m.top_k)
    } else {
        None
    }
}

impl K3Runner {
    /// The wire has room for the prefix and every block.
    pub open spec fn wf(&self) -> bool {
        &&& self.m.attn_res_block_size > 0
        &&& self.hidden == self.m.hidden_size
        &&& self.max_blocks == arith::ceil_div(
            self.m.num_hidden_layers as int,
            self.m.attn_res_block_size as int,
        )
        &&& self.wire == (1 + self.max_blocks) * self.hidden
        &&& self.lo <= self.m.num_hidden_layers
        &&& self.prefix.wf()
        &&& self.widths.len() == self.states.len()
    }

    /// Sets up rank `rank` of `total`. An override of the routed width applies before
    /// anything is built from it, so that every layer agrees on it.
    pub fn load(
        m: K3Manifest,
        rank: u32,
        total: u32,
        max_seq: usize,
        top_k_override: Option<u32>,
        prefix_budget: usize,
    ) -> (r: K3Runner)
        requires
            loadable(m),
            rank < stage::ranks(total),
        ensures
            r.wf(),
            r.m == (K3Manifest { top_k: loader::width_under(m.top_k, top_k_override), ..m }),
            r.lo == stage::split_point(m.num_hidden_layers as int, rank as int, stage::ranks(total)),
            r.lo + r.states.len() == stage::split_point(
                m.num_hidden_layers as int,
                rank + 1,
                stage::ranks(total),
            ),
            forall|i: int|
                0 <= i < r.widths.len() ==> #[trigger] r.widths[i] == width_at(r.m, r.lo + i),
            forall|i: int|
                0 <= i < r.states.len() ==> model::state_view(#[trigger] r.states[i])
                    == loader::fresh_view(m, (r.lo + i) as usize),
            r.rank == rank,
            r.first == (rank == 0),
            r.last == (rank + 1 == stage::ranks(total)),
            r.max_seq == max_seq,
            r.eos@ == (if m.eos_token_ids@.len() == 0 {
                seq![0u32]
            } else {
                m.eos_token_ids@
            }),
            r.pinned == 0,
            r.pos == 0,
            r.prefix.budget == prefix_budget,
            r.prefix.entries.len() == 0,
    {
        let mut m: K3Manifest = m;
        let eff: usize = K3Manifest::effective_top_k(m.top_k, top_k_override);
        m.top_k = eff;
        let (lo, hi): (usize, usize) = even_layer_split(m.num_hidden_layers, rank, total);
        proof {
            stage::lemma_split_within(
                m.num_hidden_layers as int,
                rank as int,
                stage::ranks(total),
            );
            stage::lemma_split_within(
                m.num_hidden_layers as int,
                rank + 1,
                stage::ranks(total),
            );
            stage::law_even_split_covers_the_layers(
                m.num_hidden_layers as int,
                stage::ranks(total),
                rank as int,
                rank as int,
            );
        }
        let mut widths: Vec<Option<usize>> = Vec::new();
        let mut states: Vec<LayerState> = Vec::new();
        let mut i: usize = lo;
        while i < hi
            invariant
                lo <= i <= hi,
                loadable(m),
                widths.len() == i - lo,
                states.len() == i - lo,
                forall|j: int|
                    0 <= j < widths.len() ==> #[trigger] widths[j] == width_at(m, lo + j),
                forall|j: int|
                    0 <= j < states.len() ==> model::state_view(#[trigger] states[j])
                        == loader::fresh_view(m, (lo + j) as usize),
            decreases hi - i,
        {
            widths.push(
                if m.is_moe(i) {
                    Some(m.top_k)
                } else {
                    None
                },
            );
            states.push(m.fresh_state(i));
            i += 1;
        }
        let hidden: usize = m.hidden_size;
        let mb: usize = max_blocks(m.num_hidden_layers, m.attn_res_block_size);
        proof {
            assert(mb * hidden + hidden == (1 + mb) * hidden && 0 <= mb * hidden)
                by (nonlinear_arith);
        }
        let wire: usize = hidden + mb * hidden;
        let eos: Vec<u32> = m.stop_tokens();
        let last: bool = if total == 0 {
            rank == 0
        } else {
            rank == total - 1
        };
        K3Runner {
            m,
            widths,
            states,
            lo,
            rank,
            first: rank == 0,
            last,
            hidden,
            wire,
            max_blocks: mb,
            max_seq,
            eos,
            pinned: 0,
            pos: 0,
            prefix: PrefixStore::new(prefix_budget),
        }
    }

    /// Experts kept in memory.
    pub fn pinned_experts(&self) -> (n: usize)
        ensures
            n == self.pinned,
    {
        self.pinned
    }

    /// The width of the first layer with routed experts, the manifest's where none has.
    pub open spec fn width(&self, from: int) -> usize
        decreases self.widths.len() - from,
    {
        if from >= self.widths.len() || from < 0 {
            self.m.top_k
        } else {
            match self.widths[from] {
                Some(k) => k,
                None => self.width(from + 1),
            }
        }
    }

    /// Routed experts per token, as the layers of this rank see it.
    pub fn top_k(&self) -> (k: usize)
        ensures
            k == self.width(0),
    {
        let mut i: usize = 0;
        while i < self.widths.len()
            invariant
                i <= self.widths.len(),
                self.width(i as int) == self.width(0),
            decreases self.widths.len() - i,
        {
            if let Some(k) = self.widths[i] {
                return k;
            }
            i += 1;
        }
        self.m.top_k
    }

    /// Changes the routed width of every layer that routes, under the same limits as at
    /// load, and tells what was applied. A width beyond 32 bits asks for the widest one.
    pub fn set_top_k(&mut self, k: usize) -> (eff: usize)
        ensures
            eff == loader::width_under(
                old(self).m.top_k,
                Some(
                    if k <= u32::MAX {
                        k as u32
                    } else {
                        u32::MAX
                    },
                ),
            ),
            final(self).widths.len() == old(self).widths.len(),
            forall|i: int|
                0 <= i < final(self).widths.len() ==> #[trigger] final(self).widths[i] == (
                match old(self).widths[i] {
                    Some(_) => Some(eff),
                    None => None,
                }),
            *final(self) == (K3Runner { widths: final(self).widths, ..*old(self) }),
    {
        let asked: u32 = if k <= u32::MAX as usize {
            k as u32
        } else {
            u32::MAX
        };
        let eff: usize = K3Manifest::effective_top_k(self.m.top_k, Some(asked));
        let ghost before = self.widths@;
        let mut widths: Vec<Option<usize>> = Vec::new();
        let mut i: usize = 0;
        while i < self.widths.len()
            invariant
                i <= self.widths.len(),
                self.widths@ == before,
                *self == *old(self),
                widths.len() == i,
                forall|j: int|
                    0 <= j < i ==> #[trigger] widths[j] == (match before[j] {
                        Some(_) => Some(eff),
                        None => None,
                    }),
            decreases self.widths.len() - i,
        {
            widths.push(
                match self.widths[i] {
                    Some(_) => Some(eff),
                    None => None,
                },
            );
            i += 1;
        }
        self.widths = widths;
        eff
    }

    /// The histogram is written back only where pinning is in use.
    pub fn saves_usage(&self, autopin_set: bool) -> (b: bool)
        ensures
            b == (self.pinned > 0 || autopin_set),
    {
        self.pinned > 0 || autopin_set
    }

    /// The width of the wire, which is what travels between ranks.
    pub fn hidden_size(&self) -> (n: usize)
        ensures
            n == self.wire,
    {
        self.wire
    }

    /// Back to the start of a sequence.
    pub fn reset(&mut self, prof: &mut Prof)
        requires
            old(self).wf(),
            old(prof).wf(),
        ensures
            final(self).wf(),
            final(self).pos == 0,
            final(self).states.len() == old(self).states.len(),
            forall|i: int|
                0 <= i < final(self).states.len() ==> cleared(
                    old(self).states[i],
                    #[trigger] final(self).states[i],
                ),
            *final(self) == (K3Runner { states: final(self).states, pos: 0, ..*old(self) }),
            final(prof).wf(),
            !old(prof).enabled ==> *final(prof) == *old(prof),
            old(prof).enabled ==> final(prof).window.len() == 0 && *final(prof) == (Prof {
                window: final(prof).window,
                ..*old(prof)
            }),
    {
        let ghost before = self.states@;
        let mut i: usize = 0;
        while i < self.states.len()
            invariant
                i <= self.states.len(),
                old(self).wf(),
                self.states.len() == before.len(),
                before == old(self).states@,
                *self == (K3Runner { states: self.states, ..*old(self) }),
                forall|j: int| 0 <= j < i ==> cleared(before[j], #[trigger] self.states[j]),
                forall|j: int| i <= j < self.states.len() ==> #[trigger] self.states[j] == before[j],
            decreases self.states.len() - i,
        {
            self.states[i].clear();
            i += 1;
        }
        self.pos = 0;
        new_sequence(prof);
    }

    /// The store of prefixes is on.
    pub fn prefix_cache_enabled(&self) -> (b: bool)
        ensures
            b == (self.prefix.budget > 0),
    {
        self.prefix.enabled()
    }

    /// Puts back every layer's state as it stood after a cached prefix and tells how
    /// many tokens that covers. All layers go together: the recurrences and the caches
    /// must agree on the position.
    pub fn restore_prefix(&mut self, key: u64, prof: &mut Prof) -> (covered: Option<usize>)
        requires
            old(self).wf(),
        ensures
            final(self).wf(),
            covered is None <==> forall|i: int|
                0 <= i < old(self).prefix.entries.len() && (
                #[trigger] old(self).prefix.entries[i]).key == key
                    ==> old(self).prefix.entries[i].states.len() != old(self).states.len(),
            covered is None ==> *final(self) == *old(self) && *final(prof) == *old(prof),
            covered is Some ==> {
                &&& exists|i: int|
                    0 <= i < old(self).prefix.entries.len() && (
                    #[trigger] old(self).prefix.entries[i]).key == key && covered->0
                        == old(self).prefix.entries[i].covered && prefix_store::views(
                        final(self).states@,
                    ) == prefix_store::views(old(self).prefix.entries[i].states@)
                &&& *final(self) == (K3Runner {
                    states: final(self).states,
                    pos: covered->0,
                    ..*old(self)
                })
                &&& *final(prof) == (Prof {
                    prefix_hits: old(prof).prefix_hits.wrapping_add(1),
                    prefix_tokens: old(prof).prefix_tokens.wrapping_add(covered->0 as u64),
                    ..*old(prof)
                })
            },
    {
        match self.prefix.get(key) {
            None => {
                proof {
                    assert(!prefix_store::has_key(self.prefix.entries@, key));
                    assert forall|i: int|
                        0 <= i < self.prefix.entries.len() implies (
                    #[trigger] self.prefix.entries[i]).key != key by {
                    }
                }
                None
            },
            Some((states, covered)) => {
                let ghost at = choose|i: int|
                    0 <= i < self.prefix.entries.len() && (#[trigger] self.prefix.entries[i]).key
                        == key && prefix_store::views(states@) == prefix_store::views(
                        self.prefix.entries[i].states@,
                    ) && covered == self.prefix.entries[i].covered;
                proof {
                    let e = self.prefix.entries[at];
                    assert(prefix_store::views(states@).len() == states@.len());
                    assert(prefix_store::views(e.states@).len() == e.states@.len());
                    assert forall|i: int|
                        0 <= i < self.prefix.entries.len() && (
                        #[trigger] self.prefix.entries[i]).key == key implies i == at by {
                        if i < at {
                            assert(self.prefix.entries[i].key != self.prefix.entries[at].key);
                        } else if at < i {
                            assert(self.prefix.entries[at].key != self.prefix.entries[i].key);
                        }
                    }
                }
                if states.len() != self.states.len() {
                    return None;
                }
                self.states = states;
                self.pos = covered;
                note_prefix_hit(prof, covered);
                Some(covered)
            },
        }
    }

    /// Keeps the states under a key; nothing before the first token.
    pub fn cache_prefix(&mut self, key: u64)
        requires
            old(self).wf(),
            prefix_store::states_bytes(old(self).states@) <= usize::MAX,
        ensures
            final(self).wf(),
            *final(self) == (K3Runner { prefix: final(self).prefix, ..*old(self) }),
            old(self).pos == 0 || !old(self).prefix.takes(key, old(self).states@)
                ==> final(self).prefix == old(self).prefix,
            old(self).pos > 0 && old(self).prefix.takes(key, old(self).states@) ==> {
                let room = old(self).prefix.budget - prefix_store::states_bytes(
                    old(self).states@,
                );
                let e = final(self).prefix.entries@;
                &&& e.len() > 0
                &&& e.drop_last() =~= prefix_store::kept(old(self).prefix.entries@, room)
                &&& e.last().key == key
                &&& e.last().covered == old(self).pos
                &&& prefix_store::views(e.last().states@) == prefix_store::views(old(self).states@)
            },
    {
        if self.pos == 0 {
            return;
        }
        self.prefix.put(key, self.states.as_slice(), self.pos);
    }

    /// Tokens that the states cover.
    pub fn covered_positions(&self) -> (n: Option<usize>)
        ensures
            n == Some(self.pos),
    {
        Some(self.pos)
    }

    /// The wire of a token: its embedding row as the prefix, and no block.
    pub fn embed_token(&self, embed: &[u32], token: u32) -> (w: Vec<u32>)
        requires
            self.wf(),
            (token + 1) * self.hidden <= embed.len(),
        ensures
            w@ == ffn::row_of(embed@, self.hidden as int, token as int) + model::zeroed(
                (self.max_blocks * self.hidden) as nat,
            ),
            w.len() == self.wire,
    {
        let h: usize = self.hidden;
        proof {
            assert(0 <= token * h && (token + 1) * h == token * h + h) by (nonlinear_arith);
            assert((1 + self.max_blocks) * h == h + self.max_blocks * h && 0 <= self.max_blocks * h)
                by (nonlinear_arith);
        }
        let start: usize = token as usize * h;
        let mut w: Vec<u32> = Vec::new();
        let mut i: usize = 0;
        while i < h
            invariant
                i <= h,
                start + h <= embed.len(),
                w@ =~= embed@.subrange(start as int, start + i),
            decreases h - i,
        {
            w.push(embed[start + i]);
            i += 1;
        }
        let ghost row = w@;
        let n: usize = self.wire - h;
        let mut j: usize = 0;
        while j < n
            invariant
                j <= n,
                w@ =~= row + model::zeroed(j as nat),
            decreases n - j,
        {
            w.push(0);
            j += 1;
        }
        proof {
            assert(row =~= ffn::row_of(embed@, h as int, token as int));
        }
        w
    }

    /// Takes a token's wire apart at the entry to this rank's layers.
    pub fn open_wire(&mut self, wire: &[u32]) -> (r: Residual)
        requires
            old(self).wf(),
            wire.len() == old(self).wire,
            old(self).pos < usize::MAX,
        ensures
            *final(self) == (K3Runner { pos: (old(self).pos + 1) as usize, ..*old(self) }),
            r.wf(old(self).hidden as int, old(self).max_blocks as int),
            r.prefix@ + r.blocks@ == wire@,
            r.nb == arith::ceil_div(
                old(self).lo as int,
                old(self).m.attn_res_block_size as int,
            ),
    {
        self.pos = self.pos + 1;
        let h: usize = self.hidden;
        proof {
            let mb = self.max_blocks as int;
            assert((1 + mb) * h == h + mb * h && 0 <= mb * h) by (nonlinear_arith)
                requires
                    mb >= 0,
                    h >= 0,
            ;
            vstd::arithmetic::div_mod::lemma_div_is_ordered(
                self.lo + self.m.attn_res_block_size - 1,
                self.m.num_hidden_layers + self.m.attn_res_block_size - 1,
                self.m.attn_res_block_size as int,
            );
        }
        let prefix: Vec<u32> = part(wire, 0, h);
        let blocks: Vec<u32> = part(wire, h, wire.len());
        proof {
            assert(prefix@ + blocks@ =~= wire@);
        }
        let nb: usize = blocks_at(self.lo, self.m.attn_res_block_size);
        Residual { prefix, blocks, nb }
    }

    /// Puts a token's wire together again.
    pub fn close_wire(&self, r: &Residual) -> (w: Vec<u32>)
        requires
            self.wf(),
            r.wf(self.hidden as int, self.max_blocks as int),
        ensures
            w@ == r.prefix@ + r.blocks@,
            w.len() == self.wire,
    {
        let mut w: Vec<u32> = part(r.prefix.as_slice(), 0, r.prefix.len());
        let mut b: Vec<u32> = part(r.blocks.as_slice(), 0, r.blocks.len());
        w.append(&mut b);
        proof {
            assert(w@ =~= r.prefix@ + r.blocks@);
            let mb = self.max_blocks as int;
            let h = self.hidden as int;
            assert((1 + mb) * h == h + mb * h) by (nonlinear_arith);
        }
        w
    }

    /// What the head mixes: the prefix and every block slot.
    pub fn head_input(&self, wire: &[u32]) -> (r: Residual)
        requires
            self.wf(),
            wire.len() == self.wire,
        ensures
            r.wf(self.hidden as int, self.max_blocks as int),
            r.prefix@ + r.blocks@ == wire@,
            r.nb == self.max_blocks,
    {
        let h: usize = self.hidden;
        proof {
            let mb = self.max_blocks as int;
            assert((1 + mb) * h == h + mb * h && 0 <= mb * h) by (nonlinear_arith)
                requires
                    mb >= 0,
                    h >= 0,
            ;
        }
        let prefix: Vec<u32> = part(wire, 0, h);
        let blocks: Vec<u32> = part(wire, h, wire.len());
        proof {
            assert(prefix@ + blocks@ =~= wire@);
        }
        Residual { prefix, blocks, nb: self.max_blocks }
    }

    /// Takes a batch's wire apart: all prefixes, all block stacks and the live blocks.
    pub fn open_batch(&mut self, wire: &[u32], rows: usize) -> (r: (Vec<u32>, Vec<u32>, usize))
        requires
            old(self).wf(),
            wire.len() == rows * old(self).wire,
            old(self).pos + rows <= usize::MAX,
        ensures
            *final(self) == (K3Runner { pos: (old(self).pos + rows) as usize, ..*old(self) }),
            is_split(
                wire@,
                r.0@,
                r.1@,
                rows as int,
                old(self).hidden as int,
                old(self).max_blocks * old(self).hidden,
            ),
            r.2 == arith::ceil_div(
                old(self).lo as int,
                old(self).m.attn_res_block_size as int,
            ),
    {
        self.pos = self.pos + rows;
        proof {
            let mb = self.max_blocks as int;
            let h = self.hidden as int;
            assert((1 + mb) * h == h + mb * h && 0 <= mb * h) by (nonlinear_arith)
                requires
                    mb >= 0,
                    h >= 0,
            ;
        }
        let (p, b): (Vec<u32>, Vec<u32>) = split_rows(wire, rows, self.hidden, self.wire
            - self.hidden);
        let nb: usize = blocks_at(self.lo, self.m.attn_res_block_size);
        (p, b, nb)
    }

    /// Puts a batch's wire together again.
    pub fn close_batch(&self, prefix: &[u32], blocks: &[u32], rows: usize) -> (w: Vec<u32>)
        requires
            self.wf(),
            rows * self.wire <= usize::MAX,
            prefix.len() == rows * self.hidden,
            blocks.len() == rows * (self.max_blocks * self.hidden),
        ensures
            is_split(
                w@,
                prefix@,
                blocks@,
                rows as int,
                self.hidden as int,
                self.max_blocks * self.hidden,
            ),
    {
        proof {
            let mb = self.max_blocks as int;
            let h = self.hidden as int;
            assert((1 + mb) * h == h + mb * h && 0 <= mb * h) by (nonlinear_arith)
                requires
                    mb >= 0,
                    h >= 0,
            ;
        }
        join_rows(prefix, blocks, rows, self.hidden, self.wire - self.hidden)
    }
}

/// A state that starts over.
pub open spec fn cleared(before: LayerState, after: LayerState) -> bool {
    match before {
        LayerState::Kda(k) => model::state_view(after) == (
            true,
            0nat,
            model::zeroed(k.recurrent@.len()),
            model::zeroed(k.conv_q@.len()),
            model::zeroed(k.conv_k@.len()),
            model::zeroed(k.conv_v@.len()),
        ),
        LayerState::Mla(_) => model::state_view(after) == (
            false,
            0nat,
            Seq::<u32>::empty(),
            Seq::<u32>::empty(),
            Seq::<u32>::empty(),
            Seq::<u32>::empty(),
        ),
    }
}

/// A part of a row.
fn part(v: &[u32], lo: usize, hi: usize) -> (r: Vec<u32>)
    requires
        lo <= hi <= v.len(),
    ensures
        r@ == v@.subrange(lo as int, hi as int),
{
    let mut r: Vec<u32> = Vec::new();
    let mut i: usize = lo;
    while i < hi
        invariant
            lo <= i <= hi <= v.len(),
            r@ =~= v@.subrange(lo as int, i as int),
        decreases hi - i,
    {
        r.push(v[i]);
        i += 1;
    }
    r
}

/// Row by row, a wire is a prefix of `h` numbers and `bw` numbers of blocks.
pub open spec fn is_split(
    wire: Seq<u32>,
    prefix: Seq<u32>,
    blocks: Seq<u32>,
    rows: int,
    h: int,
    bw: int,
) -> bool {
    &&& wire.len() == rows * (h + bw)
    &&& prefix.len() == rows * h
    &&& blocks.len() == rows * bw
    &&& forall|r: int|
        0 <= r < rows ==> #[trigger] ffn::row_of(wire, h + bw, r) == ffn::row_of(prefix, h, r)
            + ffn::row_of(blocks, bw, r)
}

proof fn lemma_row_bounds(r: int, rows: int, w: int)
    requires
        0 <= r < rows,
        0 <= w,
    ensures
        0 <= r * w,
        (r + 1) * w == r * w + w,
        (r + 1) * w <= rows * w,
{
    assert(0 <= r * w && (r + 1) * w == r * w + w && (r + 1) * w <= rows * w) by (nonlinear_arith)
        requires
            0 <= r < rows,
            0 <= w,
    ;
}

/// A matrix with one more row.
proof fn lemma_row_pushed(m: Seq<u32>, row: Seq<u32>, n: int, j: int)
    requires
        m.len() == n * row.len(),
        0 <= j <= n,
    ensures
        ffn::row_of(m + row, row.len() as int, j) == if j < n {
            ffn::row_of(m, row.len() as int, j)
        } else {
            row
        },
        (m + row).len() == (n + 1) * row.len(),
{
    let w = row.len() as int;
    assert(0 <= j * w && (j + 1) * w == j * w + w && (n + 1) * w == n * w + w && (j < n ==> (j + 1)
        * w <= n * w)) by (nonlinear_arith)
        requires
            0 <= j <= n,
            0 <= w,
    ;
    if j < n {
        assert(ffn::row_of(m + row, w, j) =~= ffn::row_of(m, w, j));
    } else {
        assert(ffn::row_of(m + row, w, j) =~= row);
    }
}

/// Takes the rows of a wire apart into two matrices.
pub fn split_rows(wire: &[u32], rows: usize, h: usize, bw: usize) -> (r: (Vec<u32>, Vec<u32>))
    requires
        h + bw <= usize::MAX,
        wire.len() == rows * (h + bw),
    ensures
        is_split(wire@, r.0@, r.1@, rows as int, h as int, bw as int),
{
    let mut prefix: Vec<u32> = Vec::new();
    let mut blocks: Vec<u32> = Vec::new();
    let w: usize = h + bw;
    let mut i: usize = 0;
    while i < rows
        invariant
            i <= rows,
            w == h + bw,
            wire.len() == rows * w,
            prefix.len() == i * h,
            blocks.len() == i * bw,
            forall|r: int|
                0 <= r < i ==> #[trigger] ffn::row_of(wire@, w as int, r) == ffn::row_of(
                    prefix@,
                    h as int,
                    r,
                ) + ffn::row_of(blocks@, bw as int, r),
        decreases rows - i,
    {
        proof {
            lemma_row_bounds(i as int, rows as int, w as int);
        }
        let at: usize = i * w;
        let mut p: Vec<u32> = part(wire, at, at + h);
        let mut b: Vec<u32> = part(wire, at + h, at + w);
        let ghost p0 = prefix@;
        let ghost b0 = blocks@;
        let ghost pr = p@;
        let ghost br = b@;
        prefix.append(&mut p);
        blocks.append(&mut b);
        proof {
            assert(prefix@ =~= p0 + pr);
            assert(blocks@ =~= b0 + br);
            assert forall|r: int| 0 <= r < i + 1 implies #[trigger] ffn::row_of(wire@, w as int, r)
                == ffn::row_of(prefix@, h as int, r) + ffn::row_of(blocks@, bw as int, r) by {
                lemma_row_pushed(p0, pr, i as int, r);
                lemma_row_pushed(b0, br, i as int, r);
                if r == i {
                    assert(ffn::row_of(wire@, w as int, r) =~= pr + br);
                }
            }
            lemma_row_pushed(p0, pr, i as int, 0);
            lemma_row_pushed(b0, br, i as int, 0);
        }
        i += 1;
    }
    (prefix, blocks)
}

/// Puts two matrices together into the rows of a wire.
pub fn join_rows(prefix: &[u32], blocks: &[u32], rows: usize, h: usize, bw: usize) -> (w: Vec<u32>)
    requires
        h + bw <= usize::MAX,
        rows * (h + bw) <= usize::MAX,
        prefix.len() == rows * h,
        blocks.len() == rows * bw,
    ensures
        is_split(w@, prefix@, blocks@, rows as int, h as int, bw as int),
{
    let mut wire: Vec<u32> = Vec::new();
    let mut i: usize = 0;
    while i < rows
        invariant
            i <= rows,
            prefix.len() == rows * h,
            blocks.len() == rows * bw,
            wire.len() == i * (h + bw),
            forall|r: int|
                0 <= r < i ==> #[trigger] ffn::row_of(wire@, h + bw, r) == ffn::row_of(
                    prefix@,
                    h as int,
                    r,
                ) + ffn::row_of(blocks@, bw as int, r),
        decreases rows - i,
    {
        proof {
            lemma_row_bounds(i as int, rows as int, h as int);
            lemma_row_bounds(i as int, rows as int, bw as int);
        }
        let mut p: Vec<u32> = part(prefix, i * h, i * h + h);
        let mut b: Vec<u32> = part(blocks, i * bw, i * bw + bw);
        let ghost w0 = wire@;
        let ghost row = p@ + b@;
        wire.append(&mut p);
        wire.append(&mut b);
        proof {
            assert(wire@ =~= w0 + row);
            assert(ffn::row_of(prefix@, h as int, i as int) + ffn::row_of(
                blocks@,
                bw as int,
                i as int,
            ) =~= row);
            assert forall|r: int| 0 <= r < i + 1 implies #[trigger] ffn::row_of(wire@, h + bw, r)
                == ffn::row_of(prefix@, h as int, r) + ffn::row_of(blocks@, bw as int, r) by {
                lemma_row_pushed(w0, row, i as int, r);
            }
            lemma_row_pushed(w0, row, i as int, 0);
        }
        i += 1;
    }
    wire
}

/// A wire that is taken apart and put together again is the same wire.
pub proof fn law_wire_round_trip(
    a: Seq<u32>,
    b: Seq<u32>,
    prefix: Seq<u32>,
    blocks: Seq<u32>,
    rows: int,
    h: int,
    bw: int,
)
    requires
        rows >= 0,
        h >= 0,
        bw >= 0,
        is_split(a, prefix, blocks, rows, h, bw),
        is_split(b, prefix, blocks, rows, h, bw),
    ensures
        a == b,
{
    let w = h + bw;
    assert forall|i: int| 0 <= i < a.len() implies a[i] == b[i] by {
        if w == 0 {
            assert(rows * w == 0) by (nonlinear_arith)
                requires
                    w == 0,
            ;
        } else {
            let r = i / w;
            let c = i % w;
            vstd::arithmetic::div_mod::lemma_fundamental_div_mod(i, w);
            vstd::arithmetic::div_mod::lemma_div_pos_is_pos(i, w);
            assert(r * w == w * r) by (nonlinear_arith);
            assert(r < rows) by (nonlinear_arith)
                requires
                    r * w <= i,
                    i < rows * w,
                    w > 0,
            ;
            lemma_row_bounds(r, rows, w);
            assert(ffn::row_of(a, w, r) == ffn::row_of(b, w, r));
            assert(ffn::row_of(a, w, r)[c] == a[i]);
            assert(ffn::row_of(b, w, r)[c] == b[i]);
        }
    }
    assert(a =~= b);
}

// ---------------------------------------------------------------------- pinning

/// Layers with routed experts, by their widths.
pub open spec fn routed_layers(widths: Seq<Option<usize>>) -> int
    decreases widths.len(),
{
    if widths.len() == 0 {
        0
    } else {
        routed_layers(widths.drop_last()) + if widths.last() is Some {
            1int
        } else {
            0int
        }
    }
}

/// Experts to pin in one layer.
pub struct PinList {
    pub layer: u32,
    pub experts: Vec<u32>,
}

/// Each layer's share of a budget: it is spread evenly over the layers that route.
pub open spec fn layer_share(widths: Seq<Option<usize>>, budget: usize) -> int {
    let n = routed_layers(widths);
    budget as int / (if n > 1 {
        n
    } else {
        1
    })
}

fn count_routed(widths: &[Option<usize>]) -> (n: usize)
    ensures
        n == routed_layers(widths@),
{
    let mut n: usize = 0;
    let mut i: usize = 0;
    proof {
        assert(widths@.take(0) =~= Seq::<Option<usize>>::empty());
    }
    while i < widths.len()
        invariant
            i <= widths.len(),
            n == routed_layers(widths@.take(i as int)),
            n <= i,
        decreases widths.len() - i,
    {
        proof {
            assert(widths@.take(i + 1).drop_last() =~= widths@.take(i as int));
        }
        if widths[i].is_some() {
            n = n + 1;
        }
        i += 1;
    }
    proof {
        assert(widths@.take(i as int) =~= widths@);
    }
    n
}

/// Bytes that the layers of a rank need besides pinned experts.
pub fn layer_reserve(layers: usize) -> (bytes: u64)
    requires
        layers * LAYER_RESERVE <= u64::MAX,
    ensures
        bytes == layers * LAYER_RESERVE,
        bytes == layers * 1_200_000_000,
{
    layers as u64 * LAYER_RESERVE
}

/// The experts to pin: in each layer that routes, its hottest ones up to the layer's
/// share. Nothing without a share or without a histogram.
pub fn pin_plan(
    usage: &UsageStats,
    lo: usize,
    widths: &[Option<usize>],
    budget: usize,
) -> (r: Vec<PinList>)
    requires
        usage.wf(),
        lo + widths.len() <= u32::MAX,
    ensures
        layer_share(widths@, budget) == 0 || usage.entries.len() == 0 ==> r.len() == 0,
        layer_share(widths@, budget) > 0 && usage.entries.len() > 0 ==> {
            &&& r.len() == routed_layers(widths@)
            &&& forall|i: int|
                0 <= i < r.len() ==> {
                    &&& lo <= (#[trigger] r[i]).layer < lo + widths.len()
                    &&& widths[r[i].layer - lo] is Some
                    &&& residency::is_hottest(
                        usage.counts(),
                        r[i].layer,
                        layer_share(widths@, budget),
                        r[i].experts@,
                    )
                }
            &&& forall|i: int, j: int|
                0 <= i < j < r.len() ==> (#[trigger] r[i]).layer < (#[trigger] r[j]).layer
        },
{
    let n: usize = count_routed(widths);
    let share: usize = if n > 1 {
        budget / n
    } else {
        budget
    };
    let mut r: Vec<PinList> = Vec::new();
    if share == 0 || usage.is_empty() {
        return r;
    }
    let mut i: usize = 0;
    proof {
        assert(widths@.take(0) =~= Seq::<Option<usize>>::empty());
    }
    while i < widths.len()
        invariant
            i <= widths.len(),
            usage.wf(),
            lo + widths.len() <= u32::MAX,
            share == layer_share(widths@, budget),
            r.len() == routed_layers(widths@.take(i as int)),
            forall|k: int|
                0 <= k < r.len() ==> {
                    &&& lo <= (#[trigger] r[k]).layer < lo + i
                    &&& widths[r[k].layer - lo] is Some
                    &&& residency::is_hottest(
                        usage.counts(),
                        r[k].layer,
                        share as int,
                        r[k].experts@,
                    )
                },
            forall|k: int, j: int|
                0 <= k < j < r.len() ==> (#[trigger] r[k]).layer < (#[trigger] r[j]).layer,
        decreases widths.len() - i,
    {
        proof {
            assert(widths@.take(i + 1).drop_last() =~= widths@.take(i as int));
        }
        if widths[i].is_some() {
            let layer: u32 = (lo + i) as u32;
            let experts: Vec<u32> = usage.hottest_for(layer, share);
            r.push(PinList { layer, experts });
        }
        i += 1;
    }
    proof {
        assert(widths@.take(i as int) =~= widths@);
    }
    r
}

/// A prefix that was kept and comes back leaves the stage as it stood when it was kept.
pub proof fn law_a_kept_prefix_comes_back(
    before: K3Runner,
    cached: K3Runner,
    back: K3Runner,
    key: u64,
    i: int,
)
    requires
        before.pos > 0,
        cached.wf(),
        cached.prefix.entries.len() > 0,
        cached.prefix.entries@.last().key == key,
        cached.prefix.entries@.last().covered == before.pos,
        prefix_store::views(cached.prefix.entries@.last().states@) == prefix_store::views(
            before.states@,
        ),
        0 <= i < cached.prefix.entries.len(),
        cached.prefix.entries[i].key == key,
        back.pos == cached.prefix.entries[i].covered,
        prefix_store::views(back.states@) == prefix_store::views(cached.prefix.entries[i].states@),
    ensures
        back.pos == before.pos,
        prefix_store::views(back.states@) == prefix_store::views(before.states@),
{
    prefix_store::law_a_snapshot_is_given_back(
        cached.prefix,
        key,
        before.states@,
        before.pos,
        (back.states@, back.pos),
        i,
    );
}

/// Layers below the first routed one have no width; every later one has the model's.
pub proof fn law_widths_of_the_layers(m: K3Manifest, i: int)
    ensures
        i < m.first_k_dense_replace ==> width_at(m, i) is None,
        i >= m.first_k_dense_replace ==> width_at(m, i) == Some(m.top_k),
{
}

/// Layers that route are counted one by one, and the budget is shared among them evenly,
/// rounded down; a rank without any keeps the whole.
pub proof fn law_layers_share_the_budget(widths: Seq<Option<usize>>, budget: usize)
    ensures
        ({
            let n = widths.filter(|w: Option<usize>| w is Some).len() as int;
            let s = layer_share(widths, budget);
            &&& routed_layers(widths) == n
            &&& n > 0 ==> n * s <= budget < n * (s + 1)
            &&& n == 0 ==> s == budget
        }),
{
    lemma_routed_are_filtered(widths);
    let n = routed_layers(widths);
    let s = layer_share(widths, budget);
    if n > 0 {
        vstd::arithmetic::div_mod::lemma_fundamental_div_mod(budget as int, n);
        assert(n * (s + 1) == n * s + n) by (nonlinear_arith);
    }
}

proof fn lemma_routed_are_filtered(widths: Seq<Option<usize>>)
    ensures
        routed_layers(widths) == widths.filter(|w: Option<usize>| w is Some).len(),
    decreases widths.len(),
{
    reveal(Seq::filter);
    if widths.len() > 0 {
        lemma_routed_are_filtered(widths.drop_last());
    }
}

/// A row on the wire is the row of the residual stream and behind it that of the blocks.
pub proof fn law_wire_rows_hold_stream_and_blocks(
    wire: Seq<u32>,
    prefix: Seq<u32>,
    blocks: Seq<u32>,
    rows: int,
    h: int,
    bw: int,
    r: int,
    c: int,
)
    requires
        is_split(wire, prefix, blocks, rows, h, bw),
        0 <= h,
        0 <= bw,
        0 <= r < rows,
        0 <= c < h + bw,
    ensures
        c < h ==> wire[r * (h + bw) + c] == prefix[r * h + c],
        c >= h ==> wire[r * (h + bw) + c] == blocks[r * bw + (c - h)],
{
    let w = h + bw;
    assert((r + 1) * w == r * w + w && (r + 1) * h == r * h + h && (r + 1) * bw == r * bw + bw && 0
        <= r * w && 0 <= r * h && 0 <= r * bw && (r + 1) * w <= rows * w && (r + 1) * h <= rows * h
        && (r + 1) * bw <= rows * bw) by (nonlinear_arith)
        requires
            0 <= r < rows,
            0 <= h,
            0 <= bw,
            w == h + bw,
    ;
    let row = ffn::row_of(wire, w, r);
    assert(row[c] == wire[r * w + c]);
    if c < h {
        assert(row[c] == ffn::row_of(prefix, h, r)[c]);
    } else {
        assert(row[c] == ffn::row_of(blocks, bw, r)[c - h]);
    }
}

/// The width of a rank is that of its first layer that routes, and the model's where
/// none does.
pub proof fn law_width_is_that_of_the_first_routed_layer(s: K3Runner, i: int)
    requires
        0 <= i <= s.widths.len(),
        i < s.widths.len() ==> s.widths[i] is Some,
        forall|x: int| 0 <= x < i ==> (#[trigger] s.widths@[x]) is None,
    ensures
        i < s.widths.len() ==> s.width(0) == s.widths[i]->0,
        i == s.widths.len() ==> s.width(0) == s.m.top_k,
{
    lemma_width_from(s, 0, i);
}

proof fn lemma_width_from(s: K3Runner, from: int, i: int)
    requires
        0 <= from <= i <= s.widths.len(),
        i < s.widths.len() ==> s.widths[i] is Some,
        forall|x: int| from <= x < i ==> (#[trigger] s.widths@[x]) is None,
    ensures
        i < s.widths.len() ==> s.width(from) == s.widths[i]->0,
        i == s.widths.len() ==> s.width(from) == s.m.top_k,
    decreases i - from,
{
    if from < i {
        assert(s.widths@[from] is None);
        lemma_width_from(s, from + 1, i);
    }
}

/// A cleared state is of the same kind and size and holds zeros, or no position.
pub proof fn law_a_cleared_state_is_zero(before: LayerState, after: LayerState, i: int)
    requires
        cleared(before, after),
        0 <= i,
    ensures
        before is Kda <==> after is Kda,
        before matches LayerState::Kda(k) ==> (after matches LayerState::Kda(n) && {
            &&& n.recurrent.len() == k.recurrent.len()
            &&& n.conv_q.len() == k.conv_q.len()
            &&& n.conv_k.len() == k.conv_k.len()
            &&& n.conv_v.len() == k.conv_v.len()
            &&& i < n.recurrent.len() ==> n.recurrent[i] == 0
            &&& i < n.conv_q.len() ==> n.conv_q[i] == 0
            &&& i < n.conv_k.len() ==> n.conv_k[i] == 0
            &&& i < n.conv_v.len() ==> n.conv_v[i] == 0
        }),
        before is Mla ==> (after matches LayerState::Mla(m) && m.len == 0 && m.latent.len() == 0),
{
}

} // verus!
