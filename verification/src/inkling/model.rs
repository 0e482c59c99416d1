//! Decoder layers and the model as sequence state: every part of a layer keeps
//! the same position, and a prefix saved from one model can be put back.
use vstd::prelude::*;

use crate::float_bits::{self, is_greater};
use crate::inkling::attn::{self, AttentionLayer, AttnKv};
use crate::inkling::conv::{self, ConvPool};
use crate::inkling::expert_cache::ExpertCacheStats;
use crate::inkling::moe::{self, DenseMlp, MoeLayer};
use crate::inkling::ring::{self, RingState};

verus! {

/// One layer's measurement; durations in nanoseconds.
#[derive(Debug, Clone, Copy, PartialEq, Eq, Structural)]
pub struct LayerTiming {
    pub rows: usize,
    pub prefill: bool,
    pub attention: u64,
    pub mlp: u64,
    pub total: u64,
}

impl LayerTiming {
    /// The measurement between three instants.
    pub fn between(start: u64, mlp_start: u64, end: u64, rows: usize, prefill: bool) -> (t: LayerTiming)
        requires
            start <= mlp_start <= end,
        ensures
            t == (LayerTiming {
                rows,
                prefill,
                attention: (mlp_start - start) as u64,
                mlp: (end - mlp_start) as u64,
                total: (end - start) as u64,
            }),
            t.total == t.attention + t.mlp,
    {
        LayerTiming {
            rows,
            prefill,
            attention: mlp_start - start,
            mlp: end - mlp_start,
            total: end - start,
        }
    }
}

/// The feed-forward part of a layer.
pub enum LayerMlp {
    Dense(DenseMlp),
    Moe(MoeLayer),
}

/// One decoder layer's sequence state: the attention caches and the histories of
/// the two convolutions behind the branches.
pub struct Layer {
    pub hidden: usize,
    /// Bits of the normalisation epsilon.
    pub eps: u32,
    pub attn: AttentionLayer,
    pub attn_sconv: ConvPool,
    pub mlp: LayerMlp,
    pub mlp_sconv: ConvPool,
}

/// A saved layer.
pub struct LayerState {
    pub attn: AttnKv,
    pub attn_conv: RingState,
    pub mlp_conv: RingState,
}

impl LayerState {
    /// Positions that the saved sequence has.
    pub fn len(&self) -> (n: usize)
        ensures
            n == self.attn.k.length(),
    {
        self.attn.len()
    }

    pub fn is_empty(&self) -> (b: bool)
        ensures
            b == (self.attn.k.length() == 0),
    {
        self.attn.is_empty()
    }

    pub open spec fn size(self, kv_width: int, hidden: int) -> int {
        self.attn.size(kv_width) + self.attn_conv.size(hidden) + self.mlp_conv.size(hidden)
    }

    /// Payload size in bytes, for a layer of these widths.
    pub fn bytes(&self, kv_width: usize, hidden: usize) -> (n: usize)
        requires
            self.attn.parts_wf(kv_width as nat),
            self.attn_conv.wf(hidden as nat),
            self.mlp_conv.wf(hidden as nat),
            self.size(kv_width as int, hidden as int) <= usize::MAX,
        ensures
            n == self.size(kv_width as int, hidden as int),
    {
        proof {
            self.attn.lemma_size_nonneg(kv_width as int);
            self.attn_conv.lemma_size_nonneg(hidden as int);
            self.mlp_conv.lemma_size_nonneg(hidden as int);
        }
        self.attn.bytes(kv_width) + self.attn_conv.bytes(hidden) + self.mlp_conv.bytes(hidden)
    }
}

/// `after` is `before` rolled back to `len` positions.
pub open spec fn layer_truncated(before: Layer, after: Layer, len: nat) -> bool {
    &&& after.same_parked(before)
    &&& after.mlp == before.mlp
    &&& attn::state_truncated(before.attn.state, after.attn.state, len)
    &&& conv::conv_truncated(before.attn_sconv.conv, after.attn_sconv.conv, len)
    &&& conv::conv_truncated(before.mlp_sconv.conv, after.mlp_sconv.conv, len)
}

/// The live sequence of a layer has consumed nothing.
pub open spec fn layer_fresh(l: Layer) -> bool {
    &&& l.attn.state.is_fresh()
    &&& conv::conv_fresh(l.attn_sconv.conv)
    &&& conv::conv_fresh(l.mlp_sconv.conv)
}

/// `after` is `before` with its live sequence cleared, and with the cache history of its
/// experts forgotten where `history` asks for that.
pub open spec fn layer_reset(before: Layer, after: Layer, history: bool) -> bool {
    &&& after.same_parked(before)
    &&& layer_fresh(after)
    &&& match (before.mlp, after.mlp) {
        (LayerMlp::Moe(m), LayerMlp::Moe(n)) if history => moe::history_reset(m, n),
        _ => after.mlp == before.mlp,
    }
}

/// `s` is the saved live sequence of `l`.
pub open spec fn layer_saved(s: LayerState, l: Layer) -> bool {
    &&& attn::state_saved(s.attn, l.attn.state)
    &&& conv::conv_saved(s.attn_conv, l.attn_sconv.conv)
    &&& conv::conv_saved(s.mlp_conv, l.mlp_sconv.conv)
}

/// `s` can be restored into `l`.
pub open spec fn layer_fits(s: LayerState, l: Layer) -> bool {
    &&& s.attn.fits(l.attn.state, l.attn.dims)
    &&& conv::conv_fits(s.attn_conv, l.attn_sconv.conv)
    &&& conv::conv_fits(s.mlp_conv, l.mlp_sconv.conv)
    &&& s.attn_conv.length() == s.attn.k.length()
    &&& s.mlp_conv.length() == s.attn.k.length()
    &&& s.attn.k.length() + l.attn.dims.cache_rows() <= usize::MAX
    &&& s.attn.k.length() + l.attn.state.k_sconv.history().rows() <= usize::MAX
    &&& s.attn.k.length() + l.attn.state.v_sconv.history().rows() <= usize::MAX
}

/// `after` is `before` with its live sequence replaced by the saved one.
pub open spec fn layer_restored(before: Layer, after: Layer, s: LayerState) -> bool {
    &&& after.same_parked(before)
    &&& after.mlp == before.mlp
    &&& attn::state_restored(before.attn.state, after.attn.state, s.attn)
    &&& conv::conv_restored(before.attn_sconv.conv, after.attn_sconv.conv, s.attn_conv)
    &&& conv::conv_restored(before.mlp_sconv.conv, after.mlp_sconv.conv, s.mlp_conv)
}

/// Slot `i` of every part holds one sequence.
pub open spec fn slot_agrees(l: Layer, i: int) -> bool {
    &&& conv::slot_conv(l.attn_sconv, i).history().length() == attn::slot_state(l.attn, i).length()
    &&& conv::slot_conv(l.mlp_sconv, i).history().length() == attn::slot_state(l.attn, i).length()
}

/// Why a layer cannot be built.
#[derive(Clone, Copy, PartialEq, Eq, Structural, Debug)]
pub enum LayerFault {
    AttnNorm,
    MlpNorm,
    AttentionHidden,
    AttnConvChannels,
    MlpConvChannels,
    MoeHidden,
}

/// Sizes of a layer's parts; `moe_hidden` for a mixture-of-experts layer.
#[derive(Clone, Copy, PartialEq, Eq, Structural, Debug)]
pub struct LayerLens {
    pub attn_norm: usize,
    pub mlp_norm: usize,
    pub attention: usize,
    pub attn_sconv: usize,
    pub mlp_sconv: usize,
    pub moe: Option<usize>,
}

/// The first part, in order, whose width is not the layer's.
pub open spec fn layer_fault(hidden: usize, l: LayerLens) -> Option<LayerFault> {
    if l.attn_norm != hidden {
        Some(LayerFault::AttnNorm)
    } else if l.mlp_norm != hidden {
        Some(LayerFault::MlpNorm)
    } else if l.attention != hidden {
        Some(LayerFault::AttentionHidden)
    } else if l.attn_sconv != hidden {
        Some(LayerFault::AttnConvChannels)
    } else if l.mlp_sconv != hidden {
        Some(LayerFault::MlpConvChannels)
    } else if l.moe matches Some(m) && m != hidden {
        Some(LayerFault::MoeHidden)
    } else {
        None
    }
}

/// Checks the widths of a layer's parts.
pub fn check_layer(hidden: usize, l: LayerLens) -> (r: Result<(), LayerFault>)
    ensures
        r is Ok <==> layer_fault(hidden, l) is None,
        r matches Err(e) ==> layer_fault(hidden, l) == Some(e),
{
    if l.attn_norm != hidden {
        return Err(LayerFault::AttnNorm);
    }
    if l.mlp_norm != hidden {
        return Err(LayerFault::MlpNorm);
    }
    if l.attention != hidden {
        return Err(LayerFault::AttentionHidden);
    }
    if l.attn_sconv != hidden {
        return Err(LayerFault::AttnConvChannels);
    }
    if l.mlp_sconv != hidden {
        return Err(LayerFault::MlpConvChannels);
    }
    match l.moe {
        Some(m) => if m != hidden {
            return Err(LayerFault::MoeHidden);
        },
        None => {},
    }
    Ok(())
}

impl Layer {
    /// Every part is sound and of the layer's width, with as many slots as the
    /// others and the same one live.
    pub open spec fn parts_wf(self) -> bool {
        &&& self.attn.wf()
        &&& self.attn_sconv.wf()
        &&& self.mlp_sconv.wf()
        &&& self.attn.dims.hidden == self.hidden
        &&& self.attn_sconv.conv.c == self.hidden
        &&& self.mlp_sconv.conv.c == self.hidden
        &&& self.attn_sconv.slots.len() == self.attn.slots.len()
        &&& self.mlp_sconv.slots.len() == self.attn.slots.len()
        &&& self.attn_sconv.live == self.attn.live
        &&& self.mlp_sconv.live == self.attn.live
        &&& match self.mlp {
            LayerMlp::Moe(m) => m.wf() && m.hidden == self.hidden,
            LayerMlp::Dense(_) => true,
        }
    }

    /// Sound, and every part of every sequence is at the same position.
    pub open spec fn wf(self) -> bool {
        &&& self.parts_wf()
        &&& self.attn_sconv.conv.history().length() == self.attn.state.length()
        &&& self.mlp_sconv.conv.history().length() == self.attn.state.length()
        &&& forall|i: int| 0 <= i < self.attn.slots.len() ==> #[trigger] slot_agrees(self, i)
    }

    /// Only the live sequence may differ.
    pub open spec fn same_parked(self, other: Layer) -> bool {
        &&& self.hidden == other.hidden
        &&& self.eps == other.eps
        &&& self.attn.same_parked(other.attn)
        &&& self.attn_sconv.same_parked(other.attn_sconv)
        &&& self.mlp_sconv.same_parked(other.mlp_sconv)
    }

    /// Positions of the live sequence.
    pub open spec fn length(self) -> nat {
        self.attn.state.length()
    }

    /// Every history of the live sequence can roll back to `len`.
    pub open spec fn can_truncate(self, len: nat) -> bool {
        &&& self.attn.state.can_truncate(len)
        &&& self.attn_sconv.conv.history().can_truncate(len)
        &&& self.mlp_sconv.conv.history().can_truncate(len)
    }

    /// Nothing was written past the live sequence's length.
    pub open spec fn undiscarded(self) -> bool {
        &&& self.attn.state.undiscarded()
        &&& self.attn_sconv.conv.history().mark() == self.attn_sconv.conv.history().length()
        &&& self.mlp_sconv.conv.history().mark() == self.mlp_sconv.conv.history().length()
    }

    /// Bytes of the live sequence's caches.
    pub open spec fn held_bytes(self) -> int {
        2 * (self.attn.dims.cache_rows() * self.attn.dims.kv_width() * 4)
            + self.attn.state.k_sconv.history().rows() * self.attn.dims.kv_width() * 4
            + self.attn.state.v_sconv.history().rows() * self.attn.dims.kv_width() * 4
            + self.attn_sconv.conv.history().rows() * self.attn_sconv.conv.history().row_width() * 4
            + self.mlp_sconv.conv.history().rows() * self.mlp_sconv.conv.history().row_width() * 4
    }

    pub fn new(
        hidden: usize,
        eps: u32,
        attn: AttentionLayer,
        attn_sconv: ConvPool,
        mlp: LayerMlp,
        mlp_sconv: ConvPool,
    ) -> (l: Layer)
        requires
            attn.wf(),
            attn.slots.len() == 0,
            attn.dims.hidden == hidden,
            attn_sconv.wf(),
            attn_sconv.slots.len() == 0,
            attn_sconv.conv.c == hidden,
            attn_sconv.conv.history().length() == attn.state.length(),
            mlp_sconv.wf(),
            mlp_sconv.slots.len() == 0,
            mlp_sconv.conv.c == hidden,
            mlp_sconv.conv.history().length() == attn.state.length(),
            mlp matches LayerMlp::Moe(m) ==> m.wf() && m.hidden == hidden,
        ensures
            l.wf(),
            l == (Layer { hidden, eps, attn, attn_sconv, mlp, mlp_sconv }),
    {
        Layer { hidden, eps, attn, attn_sconv, mlp, mlp_sconv }
    }

    pub fn is_dense(&self) -> (b: bool)
        ensures
            b == (self.mlp is Dense),
    {
        matches!(self.mlp, LayerMlp::Dense(_))
    }

    pub fn moe(&self) -> (m: Option<&MoeLayer>)
        ensures
            m == match self.mlp {
                LayerMlp::Moe(x) => Some(&x),
                LayerMlp::Dense(_) => None::<&MoeLayer>,
            },
    {
        match &self.mlp {
            LayerMlp::Moe(m) => Some(m),
            LayerMlp::Dense(_) => None,
        }
    }

    /// Positions of the live sequence.
    pub fn len(&self) -> (n: usize)
        requires
            self.wf(),
        ensures
            n == self.length(),
            n == self.attn_sconv.conv.history().length(),
            n == self.mlp_sconv.conv.history().length(),
    {
        self.attn.len()
    }

    pub fn is_empty(&self) -> (b: bool)
        requires
            self.wf(),
        ensures
            b == (self.length() == 0),
    {
        self.attn.is_empty()
    }

    /// Bytes held by one sequence.
    pub fn cache_bytes(&self) -> (n: usize)
        requires
            self.wf(),
            self.held_bytes() <= usize::MAX,
        ensures
            n == self.held_bytes(),
    {
        proof {
            self.lemma_bytes_nonneg();
        }
        self.attn.cache_bytes() + self.attn_sconv.conv.cache_bytes() + self.mlp_sconv.conv.cache_bytes()
    }

    /// Bytes that one more sequence slot costs on this layer.
    pub fn slot_bytes(&self) -> (n: usize)
        requires
            self.wf(),
            self.held_bytes() <= usize::MAX,
        ensures
            n == self.held_bytes(),
    {
        self.cache_bytes()
    }

    proof fn lemma_bytes_nonneg(self)
        requires
            self.wf(),
        ensures
            0 <= self.attn.dims.cache_rows() * self.attn.dims.kv_width() * 4,
            0 <= self.attn.state.k_sconv.history().rows() * self.attn.dims.kv_width() * 4,
            0 <= self.attn.state.v_sconv.history().rows() * self.attn.dims.kv_width() * 4,
            0 <= self.attn_sconv.conv.history().rows() * self.attn_sconv.conv.history().row_width()
                * 4,
            0 <= self.mlp_sconv.conv.history().rows() * self.mlp_sconv.conv.history().row_width()
                * 4,
    {
        let w = self.attn.dims.kv_width();
        lemma_times_four(self.attn.dims.cache_rows(), w);
        lemma_times_four(self.attn.state.k_sconv.history().rows() as int, w);
        lemma_times_four(self.attn.state.v_sconv.history().rows() as int, w);
        lemma_times_four(
            self.attn_sconv.conv.history().rows() as int,
            self.attn_sconv.conv.history().row_width() as int,
        );
        lemma_times_four(
            self.mlp_sconv.conv.history().rows() as int,
            self.mlp_sconv.conv.history().row_width() as int,
        );
    }

    pub fn slot_count(&self) -> (n: usize)
        ensures
            n == self.attn.slots.len(),
    {
        self.attn.slot_count()
    }

    /// Grows every part's pool to `n` sequences; new ones are fresh.
    pub fn ensure_slots(&mut self, n: usize)
        requires
            old(self).wf(),
        ensures
            final(self).wf(),
            slots_grown(*old(self), *final(self), n as nat),
    {
        self.attn.ensure_slots(n);
        self.attn_sconv.ensure_slots(n);
        self.mlp_sconv.ensure_slots(n);
        proof {
            let pre = *old(self);
            assert forall|i: int| 0 <= i < self.attn.slots.len() implies #[trigger] slot_agrees(
                *self,
                i,
            ) by {
                if i < pre.attn.slots.len() {
                    assert(slot_agrees(pre, i));
                    assert(self.attn.slots[i] == pre.attn.slots[i]);
                    assert(self.attn_sconv.slots[i] == pre.attn_sconv.slots[i]);
                    assert(self.mlp_sconv.slots[i] == pre.mlp_sconv.slots[i]);
                } else {
                    assert(self.attn.slots[i].is_fresh());
                    assert(conv::conv_fresh(self.attn_sconv.slots[i]));
                    assert(conv::conv_fresh(self.mlp_sconv.slots[i]));
                }
            }
            assert forall|i: int| 0 <= i < pre.attn.slots.len() implies #[trigger] slot_same(
                pre,
                *self,
                i,
            ) by {
                assert(self.attn.slots[i] == pre.attn.slots[i]);
                assert(self.attn_sconv.slots[i] == pre.attn_sconv.slots[i]);
                assert(self.mlp_sconv.slots[i] == pre.mlp_sconv.slots[i]);
            }
            assert forall|i: int|
                pre.attn.slots.len() <= i < self.attn.slots.len() && i
                    != pre.attn.live implies #[trigger] slot_fresh(*self, i) by {
                assert(self.attn.slots[i].is_fresh());
                assert(conv::conv_fresh(self.attn_sconv.slots[i]));
                assert(conv::conv_fresh(self.mlp_sconv.slots[i]));
            }
        }
    }

    /// Makes the sequence of `slot` the live one in every part. Also between the branches
    /// of a batch, where a part may be behind the others.
    pub fn select_slot(&mut self, slot: usize)
        requires
            old(self).parts_wf(),
            slot < old(self).attn.slots.len(),
        ensures
            final(self).parts_wf(),
            old(self).wf() ==> final(self).wf(),
            final(self).hidden == old(self).hidden,
            final(self).eps == old(self).eps,
            final(self).mlp == old(self).mlp,
            final(self).attn.dims == old(self).attn.dims,
            final(self).attn.live == slot,
            final(self).attn.slots.len() == old(self).attn.slots.len(),
            forall|i: int|
                0 <= i < old(self).attn.slots.len() ==> #[trigger] slot_same(
                    *old(self),
                    *final(self),
                    i,
                ),
    {
        self.attn.select(slot);
        self.attn_sconv.select(slot);
        self.mlp_sconv.select(slot);
        proof {
            let pre = *old(self);
            assert forall|i: int| 0 <= i < pre.attn.slots.len() implies #[trigger] slot_same(
                pre,
                *self,
                i,
            ) by {
                assert(attn::slot_state(self.attn, i) == attn::slot_state(pre.attn, i));
                assert(conv::slot_conv(self.attn_sconv, i) == conv::slot_conv(pre.attn_sconv, i));
                assert(conv::slot_conv(self.mlp_sconv, i) == conv::slot_conv(pre.mlp_sconv, i));
            }
            if pre.wf() {
                assert forall|i: int| 0 <= i < self.attn.slots.len() implies #[trigger] slot_agrees(
                    *self,
                    i,
                ) by {
                    assert(slot_same(pre, *self, i));
                    assert(slot_agrees(pre, i));
                }
                assert(slot_agrees(*self, slot as int));
            }
        }
    }

    /// Starts a new sequence in `slot` and makes it the live one.
    pub fn open_slot(&mut self, slot: usize, reset_history: bool)
        requires
            old(self).wf(),
            slot < old(self).attn.slots.len(),
        ensures
            final(self).wf(),
            slot_opened(*old(self), *final(self), slot as int, reset_history),
    {
        self.select_slot(slot);
        let ghost mid = *self;
        self.reset(reset_history);
        proof {
            let pre = *old(self);
            assert forall|j: int| 0 <= j < pre.attn.slots.len() && j != slot implies #[trigger] slot_same(
                pre,
                *self,
                j,
            ) by {
                assert(slot_same(pre, mid, j));
            }
        }
    }

    /// Clears the live sequence, and the cache history of the layer's experts where
    /// that is asked for.
    pub fn reset(&mut self, reset_history: bool)
        requires
            old(self).wf(),
        ensures
            final(self).wf(),
            layer_reset(*old(self), *final(self), reset_history),
    {
        self.attn.reset();
        self.attn_sconv.conv.reset();
        self.mlp_sconv.conv.reset();
        match &mut self.mlp {
            LayerMlp::Moe(m) => {
                m.reset_expert_cache_history(reset_history);
            },
            LayerMlp::Dense(_) => {},
        }
        proof {
            lemma_live_change(*old(self), *self);
        }
    }

    /// Rolls the live sequence back to `len` positions.
    pub fn truncate(&mut self, len: usize)
        requires
            old(self).wf(),
            old(self).can_truncate(len as nat),
        ensures
            final(self).wf(),
            layer_truncated(*old(self), *final(self), len as nat),
    {
        self.attn.truncate(len);
        self.attn_sconv.conv.truncate(len);
        self.mlp_sconv.conv.truncate(len);
        proof {
            lemma_live_change(*old(self), *self);
        }
    }

    /// Whether the live sequence can roll back to `len`.
    pub fn truncatable(&self, len: usize) -> (b: bool)
        requires
            self.wf(),
        ensures
            b == self.can_truncate(len as nat),
    {
        self.attn.truncatable(len) && self.attn_sconv.conv.ring.truncatable(len)
            && self.mlp_sconv.conv.ring.truncatable(len)
    }

    /// Saves the live sequence.
    pub fn snapshot(&self) -> (s: LayerState)
        requires
            self.wf(),
        ensures
            layer_saved(s, *self),
            s.attn.fits(self.attn.state, self.attn.dims),
            s.attn_conv.length() == s.attn.k.length(),
            s.mlp_conv.length() == s.attn.k.length(),
    {
        LayerState {
            attn: self.attn.snapshot(),
            attn_conv: self.attn_sconv.conv.snapshot(),
            mlp_conv: self.mlp_sconv.conv.snapshot(),
        }
    }

    /// Replaces the live sequence by a saved one.
    pub fn restore(&mut self, s: &LayerState)
        requires
            old(self).wf(),
            layer_fits(*s, *old(self)),
        ensures
            final(self).wf(),
            layer_restored(*old(self), *final(self), *s),
    {
        self.attn.restore(&s.attn);
        self.attn_sconv.conv.restore(&s.attn_conv);
        self.mlp_sconv.conv.restore(&s.mlp_conv);
        proof {
            lemma_live_change(*old(self), *self);
        }
    }

    /// The live sequence is settled once `rows` outputs of the feed-forward branch are
    /// recorded: the other parts are there already, and so is every parked sequence.
    pub open spec fn settles_after(self, rows: nat) -> bool {
        &&& self.attn_sconv.conv.history().length() == self.length()
        &&& self.mlp_sconv.conv.history().length() + rows == self.length()
        &&& forall|i: int|
            0 <= i < self.attn.slots.len() && i != self.attn.live ==> #[trigger] slot_agrees(self, i)
    }

    /// Feeds the attention branch's output of one position to its convolution and gives
    /// the inputs that it reads.
    pub fn attention_done(&mut self, a: &[u32]) -> (taps: Vec<Option<Vec<u32>>>)
        requires
            old(self).parts_wf(),
            a.len() == old(self).hidden,
            old(self).attn_sconv.conv.history().length() < usize::MAX,
        ensures
            final(self).parts_wf(),
            *final(self) == (Layer { attn_sconv: final(self).attn_sconv, ..*old(self) }),
            final(self).same_parked(*old(self)),
            conv::conv_stepped(old(self).attn_sconv.conv, final(self).attn_sconv.conv, a@),
            conv::taps_for(
                taps@,
                old(self).attn_sconv.conv.history().held(),
                old(self).attn_sconv.conv.history().length() as int,
                seq![a@],
                0,
                old(self).attn_sconv.conv.k as int,
            ),
    {
        proof {
            lemma_self_parked(*self);
        }
        self.attn_sconv.conv.decode(a)
    }

    /// Feeds the feed-forward branch's output of one position to its convolution and gives
    /// the inputs that it reads.
    pub fn mlp_done(&mut self, m: &[u32]) -> (taps: Vec<Option<Vec<u32>>>)
        requires
            old(self).parts_wf(),
            m.len() == old(self).hidden,
            old(self).mlp_sconv.conv.history().length() < usize::MAX,
        ensures
            final(self).parts_wf(),
            old(self).settles_after(1) ==> final(self).wf(),
            *final(self) == (Layer { mlp_sconv: final(self).mlp_sconv, ..*old(self) }),
            final(self).same_parked(*old(self)),
            conv::conv_stepped(old(self).mlp_sconv.conv, final(self).mlp_sconv.conv, m@),
            conv::taps_for(
                taps@,
                old(self).mlp_sconv.conv.history().held(),
                old(self).mlp_sconv.conv.history().length() as int,
                seq![m@],
                0,
                old(self).mlp_sconv.conv.k as int,
            ),
    {
        proof {
            lemma_self_parked(*self);
        }
        let taps: Vec<Option<Vec<u32>>> = self.mlp_sconv.conv.decode(m);
        proof {
            if old(self).settles_after(1) {
                lemma_settled(*old(self), *self);
            }
        }
        taps
    }

    /// Feeds the attention branch's outputs of `rows` positions to its convolution and
    /// gives the inputs that each reads.
    pub fn attention_rows_done(&mut self, a: &[u32], rows: usize) -> (taps: Vec<
        Vec<Option<Vec<u32>>>,
    >)
        requires
            old(self).parts_wf(),
            a.len() == rows * old(self).hidden,
            old(self).attn_sconv.conv.history().length() + rows <= usize::MAX,
        ensures
            final(self).parts_wf(),
            *final(self) == (Layer { attn_sconv: final(self).attn_sconv, ..*old(self) }),
            final(self).same_parked(*old(self)),
            conv::conv_fed(old(self).attn_sconv.conv, final(self).attn_sconv.conv, a@, rows as nat),
            conv::taps_fed(taps@, old(self).attn_sconv.conv, a@, rows as nat),
    {
        proof {
            lemma_self_parked(*self);
        }
        self.attn_sconv.conv.prefill(a, rows)
    }

    /// Feeds the feed-forward branch's outputs of `rows` positions to its convolution and
    /// gives the inputs that each reads.
    pub fn mlp_rows_done(&mut self, m: &[u32], rows: usize) -> (taps: Vec<Vec<Option<Vec<u32>>>>)
        requires
            old(self).parts_wf(),
            m.len() == rows * old(self).hidden,
            old(self).mlp_sconv.conv.history().length() + rows <= usize::MAX,
        ensures
            final(self).parts_wf(),
            old(self).settles_after(rows as nat) ==> final(self).wf(),
            *final(self) == (Layer { mlp_sconv: final(self).mlp_sconv, ..*old(self) }),
            final(self).same_parked(*old(self)),
            conv::conv_fed(old(self).mlp_sconv.conv, final(self).mlp_sconv.conv, m@, rows as nat),
            conv::taps_fed(taps@, old(self).mlp_sconv.conv, m@, rows as nat),
    {
        proof {
            lemma_self_parked(*self);
        }
        let taps: Vec<Vec<Option<Vec<u32>>>> = self.mlp_sconv.conv.prefill(m, rows);
        proof {
            if old(self).settles_after(rows as nat) {
                lemma_settled(*old(self), *self);
            }
        }
        taps
    }
}

/// Slot `i` holds the same sequence in both.
pub open spec fn slot_same(a: Layer, b: Layer, i: int) -> bool {
    &&& attn::slot_state(a.attn, i) == attn::slot_state(b.attn, i)
    &&& conv::slot_conv(a.attn_sconv, i) == conv::slot_conv(b.attn_sconv, i)
    &&& conv::slot_conv(a.mlp_sconv, i) == conv::slot_conv(b.mlp_sconv, i)
}

/// A layer whose feed-forward part the per-expert backend serves under number `n`.
pub open spec fn ov_attached(l: Layer, n: u32) -> Layer {
    Layer {
        mlp: match l.mlp {
            LayerMlp::Moe(m) => LayerMlp::Moe(MoeLayer { ov: Some(n), ..m }),
            LayerMlp::Dense(d) => LayerMlp::Dense(DenseMlp { ov: Some(n), ..d }),
        },
        ..l
    }
}

/// A layer whose routed part the fused backend serves under number `n`; a dense layer
/// keeps its path.
pub open spec fn ov_moe_attached(l: Layer, n: u32, k_total: usize) -> Layer {
    match l.mlp {
        LayerMlp::Moe(m) => Layer {
            mlp: LayerMlp::Moe(MoeLayer { ov_moe: Some((n, k_total)), ..m }),
            ..l
        },
        LayerMlp::Dense(_) => l,
    }
}

/// A layer whose routed part the expert workers serve under number `n`.
pub open spec fn remote_attached(l: Layer, n: u32) -> Layer {
    match l.mlp {
        LayerMlp::Moe(m) => Layer { mlp: LayerMlp::Moe(MoeLayer { remote: Some(n), ..m }), ..l },
        LayerMlp::Dense(_) => l,
    }
}

impl Layer {
    /// Serves the feed-forward part on the per-expert backend; `layer` is the number in
    /// the whole model.
    pub fn attach_ov(&mut self, layer: u32)
        ensures
            *final(self) == ov_attached(*old(self), layer),
            old(self).wf() ==> final(self).wf(),
    {
        match &mut self.mlp {
            LayerMlp::Moe(m) => m.attach_ov(layer),
            LayerMlp::Dense(d) => d.attach_ov(layer),
        }
        proof {
            lemma_attached(*old(self), *self);
        }
    }

    /// Serves a routed part on the fused backend; a dense layer keeps its path.
    pub fn attach_ov_moe(&mut self, layer: u32, k_total: usize)
        ensures
            *final(self) == ov_moe_attached(*old(self), layer, k_total),
            old(self).wf() ==> final(self).wf(),
    {
        match &mut self.mlp {
            LayerMlp::Moe(m) => m.attach_ov_moe(layer, k_total),
            LayerMlp::Dense(_) => {},
        }
        proof {
            lemma_attached(*old(self), *self);
        }
    }

    /// Serves a dense part's rows on the device; a routed layer keeps its path.
    pub fn attach_ov_dense(&mut self, layer: u32)
        ensures
            *final(self) == match old(self).mlp {
                LayerMlp::Dense(d) => Layer {
                    mlp: LayerMlp::Dense(DenseMlp { ov_dense: Some(layer), ..d }),
                    ..*old(self)
                },
                LayerMlp::Moe(_) => *old(self),
            },
            old(self).wf() ==> final(self).wf(),
    {
        match &mut self.mlp {
            LayerMlp::Dense(d) => d.attach_ov_dense(layer),
            LayerMlp::Moe(_) => {},
        }
        proof {
            lemma_attached(*old(self), *self);
        }
    }

    /// The client's dimensions are those of the layer's routed part, if it has one.
    pub open spec fn remote_fits(self, hidden: nat, n_routed: nat, n_shared: nat) -> bool {
        self.mlp matches LayerMlp::Moe(m) ==> m.hidden == hidden && m.n_routed == n_routed
            && m.n_shared == n_shared
    }

    /// Serves a routed part's experts on the workers.
    pub fn attach_remote(&mut self, layer: u32, hidden: usize, n_routed: usize, n_shared: usize)
        requires
            old(self).wf(),
            old(self).remote_fits(hidden as nat, n_routed as nat, n_shared as nat),
        ensures
            *final(self) == remote_attached(*old(self), layer),
            final(self).wf(),
    {
        match &mut self.mlp {
            LayerMlp::Moe(m) => m.attach_remote(layer, hidden, n_routed, n_shared),
            LayerMlp::Dense(_) => {},
        }
        proof {
            lemma_attached(*old(self), *self);
        }
    }
}

proof fn lemma_attached(pre: Layer, post: Layer)
    requires
        post == (Layer { mlp: post.mlp, ..pre }),
        pre.wf() ==> (post.mlp matches LayerMlp::Moe(m) ==> m.wf() && m.hidden == pre.hidden),
    ensures
        pre.wf() ==> post.wf(),
{
    if pre.wf() {
        assert forall|i: int| 0 <= i < post.attn.slots.len() implies #[trigger] slot_agrees(
            post,
            i,
        ) by {
            assert(slot_agrees(pre, i));
        }
    }
}

/// Positions of the sequence in slot `i`.
pub open spec fn slot_length(l: Layer, i: int) -> nat {
    attn::slot_state(l.attn, i).length()
}

/// `after` is `before` with a new sequence live in slot `i`, every other slot as it was,
/// and the cache history of its experts forgotten where `history` asks for that.
pub open spec fn slot_opened(before: Layer, after: Layer, i: int, history: bool) -> bool {
    &&& after.hidden == before.hidden
    &&& after.eps == before.eps
    &&& after.attn.dims == before.attn.dims
    &&& after.attn.live == i
    &&& after.attn.slots.len() == before.attn.slots.len()
    &&& slot_fresh(after, i)
    &&& forall|j: int|
        0 <= j < before.attn.slots.len() && j != i ==> #[trigger] slot_same(before, after, j)
    &&& match (before.mlp, after.mlp) {
        (LayerMlp::Moe(m), LayerMlp::Moe(n)) if history => moe::history_reset(m, n),
        _ => after.mlp == before.mlp,
    }
}

/// `after` is `before` with room for `n` sequences; new slots are fresh.
pub open spec fn slots_grown(before: Layer, after: Layer, n: nat) -> bool {
    &&& after.hidden == before.hidden
    &&& after.eps == before.eps
    &&& after.mlp == before.mlp
    &&& after.attn.dims == before.attn.dims
    &&& after.attn.live == before.attn.live
    &&& after.attn.state == before.attn.state
    &&& after.attn_sconv.conv == before.attn_sconv.conv
    &&& after.mlp_sconv.conv == before.mlp_sconv.conv
    &&& after.attn.slots.len() == if n > before.attn.slots.len() {
        n
    } else {
        before.attn.slots.len() as nat
    }
    &&& forall|i: int| 0 <= i < before.attn.slots.len() ==> #[trigger] slot_same(before, after, i)
    &&& forall|i: int|
        before.attn.slots.len() <= i < after.attn.slots.len() && i != before.attn.live
            ==> #[trigger] slot_fresh(after, i)
}

/// Slot `i` has consumed nothing.
pub open spec fn slot_fresh(l: Layer, i: int) -> bool {
    &&& attn::slot_state(l.attn, i).is_fresh()
    &&& conv::conv_fresh(conv::slot_conv(l.attn_sconv, i))
    &&& conv::conv_fresh(conv::slot_conv(l.mlp_sconv, i))
}

proof fn lemma_times_four(a: int, b: int)
    requires
        0 <= a,
        0 <= b,
    ensures
        0 <= a * b * 4,
{
    assert(0 <= a * b * 4) by (nonlinear_arith)
        requires
            0 <= a,
            0 <= b,
    ;
}

proof fn lemma_self_parked(l: Layer)
    requires
        l.parts_wf(),
    ensures
        l.same_parked(l),
{
}

proof fn lemma_settled(pre: Layer, post: Layer)
    requires
        post.parts_wf(),
        post == (Layer { mlp_sconv: post.mlp_sconv, ..pre }),
        post.same_parked(pre),
        pre.attn_sconv.conv.history().length() == pre.length(),
        post.mlp_sconv.conv.history().length() == pre.length(),
        forall|i: int|
            0 <= i < pre.attn.slots.len() && i != pre.attn.live ==> #[trigger] slot_agrees(pre, i),
    ensures
        post.wf(),
{
    assert forall|i: int| 0 <= i < post.attn.slots.len() implies #[trigger] slot_agrees(post, i) by {
        if i != post.attn.live {
            assert(slot_agrees(pre, i));
        }
    }
}

proof fn lemma_live_change(pre: Layer, post: Layer)
    requires
        pre.wf(),
        post.parts_wf(),
        post.same_parked(pre),
        post.attn_sconv.conv.history().length() == post.attn.state.length(),
        post.mlp_sconv.conv.history().length() == post.attn.state.length(),
    ensures
        post.wf(),
{
    assert forall|i: int| 0 <= i < post.attn.slots.len() implies #[trigger] slot_agrees(post, i) by {
        assert(slot_agrees(pre, i));
    }
}

/// A sequence restored from a snapshot holds exactly what the saved one held, in a
/// layer of the same shape, and can roll back wherever the saved one could: nowhere else
/// where the saved one had not been rolled back.
pub proof fn law_restored_layer_holds_what_was_saved(
    a: Layer,
    s: LayerState,
    before: Layer,
    after: Layer,
    n: nat,
)
    requires
        a.wf(),
        before.wf(),
        after.wf(),
        before.attn.dims == a.attn.dims,
        before.attn.state.same_layer(a.attn.state),
        before.attn_sconv.conv.same_kernel(a.attn_sconv.conv),
        before.mlp_sconv.conv.same_kernel(a.mlp_sconv.conv),
        layer_saved(s, a),
        layer_restored(before, after, s),
    ensures
        after.length() == a.length(),
        after.attn.state.k.held() =~= a.attn.state.k.held(),
        after.attn.state.v.held() =~= a.attn.state.v.held(),
        after.attn.state.k_sconv.history().held() =~= a.attn.state.k_sconv.history().held(),
        after.attn.state.v_sconv.history().held() =~= a.attn.state.v_sconv.history().held(),
        after.attn_sconv.conv.history().held() =~= a.attn_sconv.conv.history().held(),
        after.mlp_sconv.conv.history().held() =~= a.mlp_sconv.conv.history().held(),
        a.can_truncate(n) ==> after.can_truncate(n),
        a.undiscarded() ==> after.can_truncate(n) == a.can_truncate(n),
{
    let (p, q, r) = (a.attn.state, before.attn.state, after.attn.state);
    ring::law_restored_snapshot_behaves_alike(p.k, s.attn.k, q.k, r.k, n);
    ring::law_restored_snapshot_behaves_alike(p.v, s.attn.v, q.v, r.v, n);
    ring::law_restored_snapshot_behaves_alike(
        p.k_sconv.history(),
        s.attn.k_conv,
        q.k_sconv.history(),
        r.k_sconv.history(),
        n,
    );
    ring::law_restored_snapshot_behaves_alike(
        p.v_sconv.history(),
        s.attn.v_conv,
        q.v_sconv.history(),
        r.v_sconv.history(),
        n,
    );
    ring::law_restored_snapshot_behaves_alike(
        a.attn_sconv.conv.history(),
        s.attn_conv,
        before.attn_sconv.conv.history(),
        after.attn_sconv.conv.history(),
        n,
    );
    ring::law_restored_snapshot_behaves_alike(
        a.mlp_sconv.conv.history(),
        s.mlp_conv,
        before.mlp_sconv.conv.history(),
        after.mlp_sconv.conv.history(),
        n,
    );
}

// ----------------------------------------------------------------- predictions

/// What a layer does about predicting its own experts before its attention runs.
#[derive(Clone, Copy, PartialEq, Eq, Structural, Debug)]
pub struct OwnPrediction {
    /// Route the unattended input.
    pub route: bool,
    /// Report the prediction.
    pub observe: bool,
    /// Start reading the predicted experts.
    pub read: bool,
}

/// Decides about a layer's own prediction. `skip` says that an earlier layer has
/// predicted for this one; `enabled` that predicted reads can serve it.
pub fn own_prediction(is_moe: bool, observed: bool, skip: bool, enabled: bool) -> (p: OwnPrediction)
    ensures
        p.route == (is_moe && (observed || (!skip && enabled))),
        p.observe == (p.route && observed),
        p.read == (p.route && !skip),
{
    let route: bool = is_moe && (observed || (!skip && enabled));
    OwnPrediction { route, observe: route && observed, read: route && !skip }
}

/// What happens at one layer of a token's way through the model.
#[derive(Clone, Copy, PartialEq, Eq, Structural, Debug)]
pub struct LayerStep {
    /// Route the layer's input through the next layer's router.
    pub predict_next: bool,
    /// Report that prediction.
    pub observe_next: bool,
    /// Start reading the experts it names.
    pub read_next: bool,
    /// The layer makes no prediction of its own.
    pub skip_own: bool,
}

/// The step at layer `i`: the next layer is predicted where it routes and either
/// early reads or an observer want it.
pub open spec fn step_at(moe: Seq<bool>, early: bool, observed: bool, i: int) -> LayerStep {
    let next = i + 1 < moe.len() && moe[i + 1];
    LayerStep {
        predict_next: next && (early || observed),
        observe_next: next && observed,
        read_next: next && early,
        skip_own: early && i > 0,
    }
}

/// The steps of a token through layers of which `moe[i]` says that layer `i` routes.
pub fn token_steps(moe: &[bool], early: bool, observed: bool) -> (s: Vec<LayerStep>)
    ensures
        s.len() == moe.len(),
        forall|i: int| 0 <= i < s.len() ==> #[trigger] s[i] == step_at(moe@, early, observed, i),
{
    let mut s: Vec<LayerStep> = Vec::new();
    let mut i: usize = 0;
    while i < moe.len()
        invariant
            i <= moe.len(),
            s.len() == i,
            forall|x: int| 0 <= x < i ==> #[trigger] s[x] == step_at(moe@, early, observed, x),
        decreases moe.len() - i,
    {
        let next: bool = i + 1 < moe.len() && moe[i + 1];
        s.push(
            LayerStep {
                predict_next: next && (early || observed),
                observe_next: next && observed,
                read_next: next && early,
                skip_own: early && i > 0,
            },
        );
        i += 1;
    }
    s
}

/// No layer's experts are read ahead twice: a layer that an earlier one read for
/// does not predict for itself.
pub proof fn law_one_prediction_reads_per_layer(
    moe: Seq<bool>,
    early: bool,
    observed: bool,
    i: int,
)
    requires
        0 <= i,
        i + 1 < moe.len(),
        step_at(moe, early, observed, i).read_next,
    ensures
        step_at(moe, early, observed, i + 1).skip_own,
{
}

// -------------------------------------------------------------------- segments

/// Rows before segment `i`.
pub open spec fn rows_before(segs: Seq<(usize, usize)>, i: int) -> int
    decreases i,
{
    if i <= 0 {
        0
    } else {
        rows_before(segs, i - 1) + segs[i - 1].1
    }
}

/// The row range of every segment of a batch that holds several sequences: slot,
/// first row, row after the last.
pub fn segment_rows(segs: &[(usize, usize)]) -> (r: Vec<(usize, usize, usize)>)
    requires
        rows_before(segs@, segs.len() as int) <= usize::MAX,
    ensures
        r.len() == segs.len(),
        forall|i: int|
            0 <= i < r.len() ==> (#[trigger] r[i]).0 == segs[i].0 && r[i].1 == rows_before(segs@, i)
                && r[i].2 == rows_before(segs@, i + 1),
        forall|i: int|
            0 <= i < r.len() ==> (#[trigger] r[i]).2 - r[i].1 == segs[i].1 && r[i].1 == if i == 0 {
                0
            } else {
                r[i - 1].2 as int
            },
{
    let mut r: Vec<(usize, usize, usize)> = Vec::new();
    let mut at: usize = 0;
    let mut i: usize = 0;
    while i < segs.len()
        invariant
            i <= segs.len(),
            at == rows_before(segs@, i as int),
            rows_before(segs@, segs.len() as int) <= usize::MAX,
            r.len() == i,
            forall|x: int|
                0 <= x < i ==> (#[trigger] r[x]).0 == segs[x].0 && r[x].1 == rows_before(segs@, x)
                    && r[x].2 == rows_before(segs@, x + 1),
        decreases segs.len() - i,
    {
        proof {
            lemma_rows_before(segs@, i + 1, segs.len() as int);
        }
        let hi: usize = at + segs[i].1;
        r.push((segs[i].0, at, hi));
        at = hi;
        i += 1;
    }
    r
}

/// The row ranges lie end to end: they begin at row 0, each is as long as its segment
/// has rows and begins where the one before ends, and the last ends at the sum of all
/// rows.
pub proof fn law_segments_lie_end_to_end(
    segs: Seq<(usize, usize)>,
    r: Seq<(usize, usize, usize)>,
    i: int,
)
    requires
        r.len() == segs.len(),
        forall|x: int|
            0 <= x < r.len() ==> (#[trigger] r[x]).0 == segs[x].0 && r[x].1 == rows_before(segs, x)
                && r[x].2 == rows_before(segs, x + 1),
        0 <= i < r.len(),
    ensures
        r[i].0 == segs[i].0,
        r[i].2 - r[i].1 == segs[i].1,
        r[0].1 == 0,
        i + 1 < r.len() ==> r[i].2 == r[i + 1].1,
        r.last().2 == segs.fold_left(0int, |sum: int, s: (usize, usize)| sum + s.1),
{
    lemma_rows_are_summed(segs, segs.len() as int);
    assert(segs.take(segs.len() as int) =~= segs);
    assert(r.last() == r[segs.len() - 1]);
}

proof fn lemma_rows_are_summed(segs: Seq<(usize, usize)>, n: int)
    requires
        0 <= n <= segs.len(),
    ensures
        rows_before(segs, n) == segs.take(n).fold_left(
            0int,
            |sum: int, s: (usize, usize)| sum + s.1,
        ),
    decreases n,
{
    if n > 0 {
        lemma_rows_are_summed(segs, n - 1);
        assert(segs.take(n).drop_last() =~= segs.take(n - 1));
    }
}

proof fn lemma_rows_before(segs: Seq<(usize, usize)>, i: int, j: int)
    requires
        0 <= i <= j <= segs.len(),
    ensures
        rows_before(segs, i) <= rows_before(segs, j),
    decreases j - i,
{
    if i < j {
        lemma_rows_before(segs, i, j - 1);
    }
}

// ---------------------------------------------------------------------- tables

/// A wide table of rows: single-precision bits, or the upper halves of them.
pub enum WideTable {
    F32(Vec<u32>),
    Bf16(Vec<u16>),
}

impl WideTable {
    pub open spec fn size(self) -> nat {
        match self {
            WideTable::F32(v) => v.len() as nat,
            WideTable::Bf16(v) => v.len() as nat,
        }
    }

    /// Value `i` as single-precision bits.
    pub open spec fn value(self, i: int) -> u32 {
        match self {
            WideTable::F32(v) => v[i],
            WideTable::Bf16(v) => (v[i] * 65536) as u32,
        }
    }

    pub fn len(&self) -> (n: usize)
        ensures
            n == self.size(),
    {
        match self {
            WideTable::F32(v) => v.len(),
            WideTable::Bf16(v) => v.len(),
        }
    }

    pub fn is_empty(&self) -> (b: bool)
        ensures
            b == (self.size() == 0),
    {
        self.len() == 0
    }

    /// Row `t` of rows of `hidden` values.
    pub fn row(&self, t: usize, hidden: usize) -> (r: Vec<u32>)
        requires
            (t + 1) * hidden <= self.size(),
        ensures
            r.len() == hidden,
            forall|c: int| 0 <= c < hidden ==> #[trigger] r[c] == self.value(t * hidden + c),
            self matches WideTable::F32(v) ==> forall|c: int|
                0 <= c < hidden ==> #[trigger] r[c] == v[t * hidden + c],
            self matches WideTable::Bf16(v) ==> forall|c: int|
                0 <= c < hidden ==> (#[trigger] r[c]) / 65536 == v[t * hidden + c] && r[c] % 65536
                    == 0,
    {
        assert((t + 1) * hidden == t * hidden + hidden && t * hidden >= 0) by (nonlinear_arith);
        assert(self.size() <= usize::MAX) by {
            match self {
                WideTable::F32(v) => {},
                WideTable::Bf16(v) => {},
            }
        }
        let base: usize = t * hidden;
        let mut r: Vec<u32> = Vec::new();
        let mut c: usize = 0;
        while c < hidden
            invariant
                c <= hidden,
                base == t * hidden,
                base + hidden <= self.size(),
                self.size() <= usize::MAX,
                r.len() == c,
                forall|x: int| 0 <= x < c ==> #[trigger] r[x] == self.value(t * hidden + x),
            decreases hidden - c,
        {
            let b: u32 = match self {
                WideTable::F32(v) => v[base + c],
                WideTable::Bf16(v) => v[base + c] as u32 * 65536,
            };
            r.push(b);
            c += 1;
        }
        r
    }
}

impl WideTable {
    /// An entry of single precision is given as it stands. One of half the width
    /// becomes the upper half of the value, and the lower half is zero.
    pub proof fn law_entries_fill_the_upper_half(self, i: int)
        ensures
            match self {
                WideTable::F32(v) => self.value(i) == v[i],
                WideTable::Bf16(v) => self.value(i) / 65536 == v[i] && self.value(i) % 65536 == 0,
            },
    {
    }

    /// Rows do not overlap and leave nothing out: value `c` of row `t` is entry
    /// `t * hidden + c` of the table.
    pub proof fn law_row_is_cut_from_the_table(self, t: int, hidden: int, r: Seq<u32>, c: int)
        requires
            0 <= c < hidden,
            r.len() == hidden,
            forall|x: int| 0 <= x < hidden ==> #[trigger] r[x] == self.value(t * hidden + x),
        ensures
            match self {
                WideTable::F32(v) => r[c] == v[t * hidden + c],
                WideTable::Bf16(v) => r[c] / 65536 == v[t * hidden + c] && r[c] % 65536 == 0,
            },
    {
        self.law_entries_fill_the_upper_half(t * hidden + c);
    }
}

/// Why a head cannot be built.
#[derive(Clone, Copy, PartialEq, Eq, Structural, Debug)]
pub enum HeadFault {
    EmptyNorm,
    /// The divisor of the hidden state is not positive.
    Mup,
    Vocab { unpadded: usize, rows: usize },
}

pub open spec fn head_fault(norm: usize, mup: u32, unpadded: usize, unembed: nat) -> Option<
    HeadFault,
> {
    if norm == 0 {
        Some(HeadFault::EmptyNorm)
    } else if !float_bits::value_gt(mup, 0) {
        Some(HeadFault::Mup)
    } else if unpadded < 1 || unpadded * norm > unembed {
        Some(HeadFault::Vocab { unpadded, rows: (unembed / norm as nat) as usize })
    } else {
        None
    }
}

/// Checks the sizes of a head.
pub fn check_head(norm: usize, mup: u32, unpadded: usize, unembed: usize) -> (r: Result<
    (),
    HeadFault,
>)
    ensures
        r is Ok <==> head_fault(norm, mup, unpadded, unembed as nat) is None,
        r matches Err(e) ==> head_fault(norm, mup, unpadded, unembed as nat) == Some(e),
{
    if norm == 0 {
        return Err(HeadFault::EmptyNorm);
    }
    if !is_greater(mup, 0) {
        return Err(HeadFault::Mup);
    }
    assert(unpadded * norm <= usize::MAX * usize::MAX && usize::MAX * usize::MAX <= u128::MAX)
        by (nonlinear_arith)
        requires
            unpadded <= usize::MAX,
            norm <= usize::MAX,
            usize::MAX <= 0xffff_ffff_ffff_ffff,
    ;
    if unpadded < 1 || unpadded as u128 * norm as u128 > unembed as u128 {
        return Err(HeadFault::Vocab { unpadded, rows: unembed / norm });
    }
    Ok(())
}

/// Why a model cannot be built.
#[derive(Clone, Copy, PartialEq, Eq, Structural, Debug)]
pub enum ModelFault {
    EmbedShape,
    UnembedShape,
    EmbedNorm,
    Norm,
    Vocab { unpadded: usize, vocab: usize },
    LayerHidden { layer: usize },
}

/// Sizes of a model's tables.
#[derive(Clone, Copy, PartialEq, Eq, Structural, Debug)]
pub struct ModelLens {
    pub embed: usize,
    pub unembed: usize,
    pub embed_norm: usize,
    pub norm: usize,
}

/// The first layer whose width is not the model's.
pub open spec fn odd_layer(layers: Seq<usize>, hidden: usize, from: int) -> Option<int>
    decreases layers.len() - from,
{
    if from >= layers.len() {
        None
    } else if layers[from] != hidden {
        Some(from)
    } else {
        odd_layer(layers, hidden, from + 1)
    }
}

pub open spec fn model_fault(
    hidden: usize,
    vocab: usize,
    unpadded: usize,
    l: ModelLens,
    layers: Seq<usize>,
) -> Option<ModelFault> {
    if l.embed != vocab * hidden {
        Some(ModelFault::EmbedShape)
    } else if l.unembed != vocab * hidden {
        Some(ModelFault::UnembedShape)
    } else if l.embed_norm != hidden {
        Some(ModelFault::EmbedNorm)
    } else if l.norm != hidden {
        Some(ModelFault::Norm)
    } else if unpadded < 1 || unpadded > vocab {
        Some(ModelFault::Vocab { unpadded, vocab })
    } else {
        match odd_layer(layers, hidden, 0) {
            Some(i) => Some(ModelFault::LayerHidden { layer: i as usize }),
            None => None,
        }
    }
}

/// Checks the sizes of a model; `layers` holds the layers' widths.
pub fn check_model(
    hidden: usize,
    vocab: usize,
    unpadded: usize,
    l: ModelLens,
    layers: &[usize],
) -> (r: Result<(), ModelFault>)
    ensures
        r is Ok <==> model_fault(hidden, vocab, unpadded, l, layers@) is None,
        r matches Err(e) ==> model_fault(hidden, vocab, unpadded, l, layers@) == Some(e),
{
    assert(vocab * hidden <= usize::MAX * usize::MAX && usize::MAX * usize::MAX <= u128::MAX)
        by (nonlinear_arith)
        requires
            vocab <= usize::MAX,
            hidden <= usize::MAX,
            usize::MAX <= 0xffff_ffff_ffff_ffff,
    ;
    let table: u128 = vocab as u128 * hidden as u128;
    if l.embed as u128 != table {
        return Err(ModelFault::EmbedShape);
    }
    if l.unembed as u128 != table {
        return Err(ModelFault::UnembedShape);
    }
    if l.embed_norm != hidden {
        return Err(ModelFault::EmbedNorm);
    }
    if l.norm != hidden {
        return Err(ModelFault::Norm);
    }
    if unpadded < 1 || unpadded > vocab {
        return Err(ModelFault::Vocab { unpadded, vocab });
    }
    let mut i: usize = 0;
    while i < layers.len()
        invariant
            i <= layers.len(),
            odd_layer(layers@, hidden, 0) == odd_layer(layers@, hidden, i as int),
            l.embed == vocab * hidden,
            l.unembed == vocab * hidden,
            l.embed_norm == hidden,
            l.norm == hidden,
            1 <= unpadded <= vocab,
        decreases layers.len() - i,
    {
        if layers[i] != hidden {
            return Err(ModelFault::LayerHidden { layer: i });
        }
        i += 1;
    }
    Ok(())
}

// ----------------------------------------------------------------------- model

/// The layers of a model.
pub struct Model {
    pub hidden: usize,
    pub vocab: usize,
    pub layers: Vec<Layer>,
}

impl Model {
    /// Every layer is settled and at the same position.
    pub open spec fn wf(self) -> bool {
        &&& forall|i: int|
            0 <= i < self.layers.len() ==> (#[trigger] self.layers[i]).wf() && self.layers[i].hidden
                == self.hidden
        &&& forall|i: int, j: int|
            0 <= i < self.layers.len() && 0 <= j < self.layers.len() ==> (
            #[trigger] self.layers[i]).length() == (#[trigger] self.layers[j]).length()
    }

    pub open spec fn length(self) -> nat {
        if self.layers.len() > 0 {
            self.layers[0].length()
        } else {
            0
        }
    }

    /// Positions of the live sequence.
    pub fn len(&self) -> (n: usize)
        requires
            self.wf(),
        ensures
            n == self.length(),
    {
        if self.layers.len() > 0 {
            self.layers[0].len()
        } else {
            0
        }
    }

    pub fn is_empty(&self) -> (b: bool)
        requires
            self.wf(),
        ensures
            b == (self.length() == 0),
    {
        self.len() == 0
    }

    /// A model of layers of its width, all at the same position.
    pub fn new(hidden: usize, vocab: usize, layers: Vec<Layer>) -> (m: Model)
        requires
            (Model { hidden, vocab, layers }).wf(),
        ensures
            m == (Model { hidden, vocab, layers }),
            m.wf(),
    {
        Model { hidden, vocab, layers }
    }

    /// Clears every layer's live sequence.
    pub fn reset(&mut self, reset_history: bool)
        requires
            old(self).wf(),
        ensures
            final(self).wf(),
            final(self).length() == 0,
            final(self).hidden == old(self).hidden,
            final(self).vocab == old(self).vocab,
            final(self).layers.len() == old(self).layers.len(),
            forall|i: int|
                0 <= i < final(self).layers.len() ==> layer_reset(
                    old(self).layers[i],
                    #[trigger] final(self).layers[i],
                    reset_history,
                ),
    {
        let mut i: usize = 0;
        while i < self.layers.len()
            invariant
                i <= self.layers.len(),
                self.hidden == old(self).hidden,
                self.vocab == old(self).vocab,
                self.layers.len() == old(self).layers.len(),
                forall|x: int|
                    0 <= x < self.layers.len() ==> (#[trigger] self.layers[x]).wf()
                        && self.layers[x].hidden == self.hidden,
                forall|x: int|
                    0 <= x < i ==> layer_reset(
                        old(self).layers[x],
                        #[trigger] self.layers[x],
                        reset_history,
                    ),
                forall|x: int|
                    i <= x < self.layers.len() ==> #[trigger] self.layers[x] == old(self).layers[x],
            decreases self.layers.len() - i,
        {
            self.layers[i].reset(reset_history);
            i += 1;
        }
    }

    /// Every layer can roll back to `len`.
    pub open spec fn can_truncate(self, len: nat) -> bool {
        forall|i: int|
            0 <= i < self.layers.len() ==> (#[trigger] self.layers[i]).can_truncate(len)
    }

    /// Rolls every layer back to `len` positions.
    pub fn truncate(&mut self, len: usize)
        requires
            old(self).wf(),
            old(self).can_truncate(len as nat),
        ensures
            final(self).wf(),
            final(self).hidden == old(self).hidden,
            final(self).vocab == old(self).vocab,
            final(self).layers.len() == old(self).layers.len(),
            forall|i: int|
                0 <= i < final(self).layers.len() ==> layer_truncated(
                    old(self).layers[i],
                    #[trigger] final(self).layers[i],
                    len as nat,
                ),
    {
        let mut i: usize = 0;
        while i < self.layers.len()
            invariant
                i <= self.layers.len(),
                old(self).can_truncate(len as nat),
                self.hidden == old(self).hidden,
                self.vocab == old(self).vocab,
                self.layers.len() == old(self).layers.len(),
                forall|x: int|
                    0 <= x < self.layers.len() ==> (#[trigger] self.layers[x]).wf()
                        && self.layers[x].hidden == self.hidden,
                forall|x: int|
                    0 <= x < i ==> layer_truncated(
                        old(self).layers[x],
                        #[trigger] self.layers[x],
                        len as nat,
                    ),
                forall|x: int|
                    i <= x < self.layers.len() ==> #[trigger] self.layers[x] == old(self).layers[x],
            decreases self.layers.len() - i,
        {
            assert(old(self).layers[i as int].can_truncate(len as nat));
            self.layers[i].truncate(len);
            i += 1;
        }
    }

    /// Saves every layer's live sequence.
    pub fn snapshot_prefix(&self) -> (snap: Vec<LayerState>)
        requires
            self.wf(),
        ensures
            snap.len() == self.layers.len(),
            forall|i: int|
                0 <= i < snap.len() ==> layer_saved(#[trigger] snap[i], self.layers[i])
                    && snap[i].attn.k.length() == self.length(),
    {
        let mut snap: Vec<LayerState> = Vec::new();
        let mut i: usize = 0;
        while i < self.layers.len()
            invariant
                self.wf(),
                i <= self.layers.len(),
                snap.len() == i,
                forall|x: int|
                    0 <= x < i ==> layer_saved(#[trigger] snap[x], self.layers[x])
                        && snap[x].attn.k.length() == self.length(),
            decreases self.layers.len() - i,
        {
            assert(self.layers[i as int].length() == self.layers[0].length());
            snap.push(self.layers[i].snapshot());
            i += 1;
        }
        snap
    }

    /// Replaces every layer's live sequence by a saved one. The snapshot has a state
    /// for every layer, all of one length.
    pub fn restore_prefix(&mut self, snap: &[LayerState])
        requires
            old(self).wf(),
            snap.len() == old(self).layers.len(),
            forall|i: int|
                0 <= i < snap.len() ==> layer_fits(#[trigger] snap[i], old(self).layers[i]),
            forall|i: int, j: int|
                0 <= i < snap.len() && 0 <= j < snap.len() ==> (
                #[trigger] snap[i]).attn.k.length() == (#[trigger] snap[j]).attn.k.length(),
        ensures
            final(self).wf(),
            final(self).hidden == old(self).hidden,
            final(self).vocab == old(self).vocab,
            final(self).layers.len() == old(self).layers.len(),
            forall|i: int|
                0 <= i < final(self).layers.len() ==> layer_restored(
                    old(self).layers[i],
                    #[trigger] final(self).layers[i],
                    snap[i],
                ),
    {
        let mut i: usize = 0;
        while i < self.layers.len()
            invariant
                i <= self.layers.len(),
                snap.len() == self.layers.len(),
                self.hidden == old(self).hidden,
                self.vocab == old(self).vocab,
                self.layers.len() == old(self).layers.len(),
                forall|x: int|
                    0 <= x < snap.len() ==> layer_fits(#[trigger] snap[x], old(self).layers[x]),
                forall|x: int|
                    0 <= x < self.layers.len() ==> (#[trigger] self.layers[x]).wf()
                        && self.layers[x].hidden == self.hidden,
                forall|x: int|
                    0 <= x < i ==> layer_restored(
                        old(self).layers[x],
                        #[trigger] self.layers[x],
                        snap[x],
                    ),
                forall|x: int|
                    i <= x < self.layers.len() ==> #[trigger] self.layers[x] == old(self).layers[x],
            decreases self.layers.len() - i,
        {
            assert(layer_fits(snap[i as int], old(self).layers[i as int]));
            self.layers[i].restore(&snap[i]);
            i += 1;
        }
        proof {
            assert forall|a: int, b: int|
                0 <= a < self.layers.len() && 0 <= b < self.layers.len() implies (
            #[trigger] self.layers[a]).length() == (#[trigger] self.layers[b]).length() by {
                assert(layer_restored(old(self).layers[a], self.layers[a], snap[a]));
                assert(layer_restored(old(self).layers[b], self.layers[b], snap[b]));
                assert(snap[a].attn.k.length() == snap[b].attn.k.length());
            }
        }
    }

    /// Early reads serve the model: asked for, and some layer can take them.
    pub fn early_prediction_reads_enabled(&self, requested: bool, reads: bool) -> (b: bool)
        ensures
            b == (requested && exists|i: int|
                0 <= i < self.layers.len() && predicts(#[trigger] self.layers[i], reads)),
    {
        if !requested {
            return false;
        }
        let mut i: usize = 0;
        while i < self.layers.len()
            invariant
                requested,
                i <= self.layers.len(),
                forall|x: int| 0 <= x < i ==> !predicts(#[trigger] self.layers[x], reads),
            decreases self.layers.len() - i,
        {
            match &self.layers[i].mlp {
                LayerMlp::Moe(m) => {
                    if m.prediction_reads_enabled(reads) {
                        assert(predicts(self.layers[i as int], reads));
                        return true;
                    }
                },
                LayerMlp::Dense(_) => {},
            }
            i += 1;
        }
        false
    }
}

/// The counters of the routing layers, in order.
pub open spec fn moe_stats(layers: Seq<Layer>) -> Seq<ExpertCacheStats>
    decreases layers.len(),
{
    if layers.len() == 0 {
        Seq::empty()
    } else {
        let before = moe_stats(layers.drop_last());
        match layers.last().mlp {
            LayerMlp::Moe(m) => before.push(m.expert_cache.stats),
            LayerMlp::Dense(_) => before,
        }
    }
}

/// The cache counters of some layers, added up.
pub fn layers_cache_stats(layers: &[Layer]) -> (t: ExpertCacheStats)
    requires
        totals_fit(moe_stats(layers@)),
    ensures
        totals_are(t, moe_stats(layers@)),
{
    let mut v: Vec<ExpertCacheStats> = Vec::new();
    let mut i: usize = 0;
    proof {
        assert(layers@.take(0) =~= Seq::<Layer>::empty());
    }
    while i < layers.len()
        invariant
            i <= layers.len(),
            v@ == moe_stats(layers@.take(i as int)),
        decreases layers.len() - i,
    {
        proof {
            assert(layers@.take(i + 1).drop_last() =~= layers@.take(i as int));
        }
        match &layers[i].mlp {
            LayerMlp::Moe(m) => {
                v.push(m.expert_cache_stats());
            },
            LayerMlp::Dense(_) => {},
        }
        i += 1;
    }
    proof {
        assert(layers@.take(layers.len() as int) =~= layers@);
    }
    sum_stats(v.as_slice())
}

impl Model {
    /// Serves every layer's feed-forward part on the per-expert backend. The model holds
    /// all layers, so that a layer's place is its number.
    pub fn attach_ov(&mut self)
        requires
            old(self).layers.len() <= u32::MAX,
        ensures
            *final(self) == (Model { layers: final(self).layers, ..*old(self) }),
            final(self).layers.len() == old(self).layers.len(),
            forall|i: int|
                0 <= i < final(self).layers.len() ==> #[trigger] final(self).layers[i]
                    == ov_attached(old(self).layers[i], i as u32),
            old(self).wf() ==> final(self).wf(),
    {
        let mut i: usize = 0;
        while i < self.layers.len()
            invariant
                i <= self.layers.len() <= u32::MAX,
                *self == (Model { layers: self.layers, ..*old(self) }),
                self.layers.len() == old(self).layers.len(),
                forall|x: int|
                    0 <= x < i ==> (#[trigger] self.layers[x]) == ov_attached(
                        old(self).layers[x],
                        x as u32,
                    ) && (old(self).layers[x].wf() ==> self.layers[x].wf()),
                forall|x: int|
                    i <= x < self.layers.len() ==> #[trigger] self.layers[x] == old(self).layers[x],
            decreases self.layers.len() - i,
        {
            self.layers[i].attach_ov(i as u32);
            i += 1;
        }
    }

    /// Serves every routed layer whose model `has` names on the fused backend; the other
    /// layers keep their path.
    pub fn attach_ov_moe(&mut self, has: &[bool], k_total: usize)
        requires
            old(self).layers.len() <= u32::MAX,
            has.len() == old(self).layers.len(),
        ensures
            *final(self) == (Model { layers: final(self).layers, ..*old(self) }),
            final(self).layers.len() == old(self).layers.len(),
            forall|i: int|
                0 <= i < final(self).layers.len() ==> #[trigger] final(self).layers[i] == if has[i] {
                    ov_moe_attached(old(self).layers[i], i as u32, k_total)
                } else {
                    old(self).layers[i]
                },
            old(self).wf() ==> final(self).wf(),
    {
        let mut i: usize = 0;
        while i < self.layers.len()
            invariant
                i <= self.layers.len() <= u32::MAX,
                has.len() == self.layers.len(),
                *self == (Model { layers: self.layers, ..*old(self) }),
                self.layers.len() == old(self).layers.len(),
                forall|x: int|
                    0 <= x < i ==> (#[trigger] self.layers[x]) == (if has[x] {
                        ov_moe_attached(old(self).layers[x], x as u32, k_total)
                    } else {
                        old(self).layers[x]
                    }) && (old(self).layers[x].wf() ==> self.layers[x].wf()),
                forall|x: int|
                    i <= x < self.layers.len() ==> #[trigger] self.layers[x] == old(self).layers[x],
            decreases self.layers.len() - i,
        {
            if has[i] {
                self.layers[i].attach_ov_moe(i as u32, k_total);
            }
            i += 1;
        }
    }

    /// The cache counters of all layers, added up.
    pub fn expert_cache_stats(&self) -> (t: ExpertCacheStats)
        requires
            totals_fit(moe_stats(self.layers@)),
        ensures
            totals_are(t, moe_stats(self.layers@)),
    {
        layers_cache_stats(self.layers.as_slice())
    }
}

/// The layer can take predicted reads.
pub open spec fn predicts(l: Layer, reads: bool) -> bool {
    l.mlp matches LayerMlp::Moe(m) && reads && m.remote is None && m.local_routed > 0
        && m.expert_cache.stats.capacity_bytes > 0
}

/// Sum of one counter.
pub open spec fn counter_total(
    s: Seq<ExpertCacheStats>,
    f: spec_fn(ExpertCacheStats) -> int,
) -> int
    decreases s.len(),
{
    if s.len() == 0 {
        0
    } else {
        counter_total(s.drop_last(), f) + f(s.last())
    }
}

proof fn lemma_counter_prefix(
    s: Seq<ExpertCacheStats>,
    f: spec_fn(ExpertCacheStats) -> int,
    n: int,
)
    requires
        0 <= n <= s.len(),
        forall|x: ExpertCacheStats| #[trigger] f(x) >= 0,
    ensures
        counter_total(s.take(n), f) <= counter_total(s, f),
    decreases s.len(),
{
    if n == s.len() {
        assert(s.take(n) =~= s);
    } else {
        lemma_counter_prefix(s.drop_last(), f, n);
        assert(s.drop_last().take(n) =~= s.take(n));
    }
}

/// Every sum fits its counter.
pub open spec fn totals_fit(s: Seq<ExpertCacheStats>) -> bool {
    &&& counter_total(s, |x: ExpertCacheStats| x.capacity_bytes as int) <= usize::MAX
    &&& counter_total(s, |x: ExpertCacheStats| x.retained_bytes as int) <= usize::MAX
    &&& counter_total(s, |x: ExpertCacheStats| x.hits as int) <= u64::MAX
    &&& counter_total(s, |x: ExpertCacheStats| x.hit_bytes as int) <= u64::MAX
    &&& counter_total(s, |x: ExpertCacheStats| x.misses as int) <= u64::MAX
    &&& counter_total(s, |x: ExpertCacheStats| x.admissions as int) <= u64::MAX
    &&& counter_total(s, |x: ExpertCacheStats| x.evictions as int) <= u64::MAX
    &&& counter_total(s, |x: ExpertCacheStats| x.history_resets as int) <= u64::MAX
    &&& counter_total(s, |x: ExpertCacheStats| x.frequency_decays as int) <= u64::MAX
    &&& counter_total(s, |x: ExpertCacheStats| x.recent_tie_admissions as int) <= u64::MAX
}

/// `t` is the sum of all counters.
pub open spec fn totals_are(t: ExpertCacheStats, s: Seq<ExpertCacheStats>) -> bool {
    &&& t.capacity_bytes == counter_total(s, |x: ExpertCacheStats| x.capacity_bytes as int)
    &&& t.retained_bytes == counter_total(s, |x: ExpertCacheStats| x.retained_bytes as int)
    &&& t.hits == counter_total(s, |x: ExpertCacheStats| x.hits as int)
    &&& t.hit_bytes == counter_total(s, |x: ExpertCacheStats| x.hit_bytes as int)
    &&& t.misses == counter_total(s, |x: ExpertCacheStats| x.misses as int)
    &&& t.admissions == counter_total(s, |x: ExpertCacheStats| x.admissions as int)
    &&& t.evictions == counter_total(s, |x: ExpertCacheStats| x.evictions as int)
    &&& t.history_resets == counter_total(s, |x: ExpertCacheStats| x.history_resets as int)
    &&& t.frequency_decays == counter_total(s, |x: ExpertCacheStats| x.frequency_decays as int)
    &&& t.recent_tie_admissions == counter_total(
        s,
        |x: ExpertCacheStats| x.recent_tie_admissions as int,
    )
}

proof fn lemma_totals_prefix(s: Seq<ExpertCacheStats>, n: int)
    requires
        0 <= n <= s.len(),
        totals_fit(s),
    ensures
        totals_fit(s.take(n)),
{
    lemma_counter_prefix(s, |x: ExpertCacheStats| x.capacity_bytes as int, n);
    lemma_counter_prefix(s, |x: ExpertCacheStats| x.retained_bytes as int, n);
    lemma_counter_prefix(s, |x: ExpertCacheStats| x.hits as int, n);
    lemma_counter_prefix(s, |x: ExpertCacheStats| x.hit_bytes as int, n);
    lemma_counter_prefix(s, |x: ExpertCacheStats| x.misses as int, n);
    lemma_counter_prefix(s, |x: ExpertCacheStats| x.admissions as int, n);
    lemma_counter_prefix(s, |x: ExpertCacheStats| x.evictions as int, n);
    lemma_counter_prefix(s, |x: ExpertCacheStats| x.history_resets as int, n);
    lemma_counter_prefix(s, |x: ExpertCacheStats| x.frequency_decays as int, n);
    lemma_counter_prefix(s, |x: ExpertCacheStats| x.recent_tie_admissions as int, n);
}

/// Adds up the counters of several caches.
pub fn sum_stats(stats: &[ExpertCacheStats]) -> (t: ExpertCacheStats)
    requires
        totals_fit(stats@),
    ensures
        totals_are(t, stats@),
{
    let mut t: ExpertCacheStats = ExpertCacheStats::sized(0);
    let mut i: usize = 0;
    proof {
        assert(stats@.take(0) =~= Seq::<ExpertCacheStats>::empty());
    }
    while i < stats.len()
        invariant
            i <= stats.len(),
            totals_fit(stats@),
            totals_are(t, stats@.take(i as int)),
        decreases stats.len() - i,
    {
        proof {
            assert(stats@.take(i + 1).drop_last() =~= stats@.take(i as int));
            lemma_totals_prefix(stats@, i + 1);
        }
        t.add(stats[i]);
        i += 1;
    }
    proof {
        assert(stats@.take(stats.len() as int) =~= stats@);
    }
    t
}

/// How many of some results are true, or false.
pub open spec fn answers(r: Seq<Option<bool>>, want: bool) -> nat
    decreases r.len(),
{
    if r.len() == 0 {
        0
    } else {
        answers(r.drop_last(), want) + if r.last() == Some(want) {
            1nat
        } else {
            0
        }
    }
}

/// Counts the backends of a warm-up that are usable and those that are not; parts
/// without a backend do not count.
pub fn tally(results: &[Option<bool>]) -> (t: (usize, usize))
    ensures
        t.0 == answers(results@, true),
        t.1 == answers(results@, false),
{
    let mut ok: usize = 0;
    let mut bad: usize = 0;
    let mut i: usize = 0;
    while i < results.len()
        invariant
            i <= results.len(),
            ok <= i,
            bad <= i,
            ok == answers(results@.take(i as int), true),
            bad == answers(results@.take(i as int), false),
        decreases results.len() - i,
    {
        proof {
            assert(results@.take(i + 1).drop_last() =~= results@.take(i as int));
        }
        match results[i] {
            Some(true) => {
                ok = ok + 1;
            },
            Some(false) => {
                bad = bad + 1;
            },
            None => {},
        }
        i += 1;
    }
    proof {
        assert(results@.take(results.len() as int) =~= results@);
    }
    (ok, bad)
}

// --------------------------------------------------------------------- sampling

/// The index of the first greatest value among the first `n`; a value that is no
/// number is greater than nothing, and nothing is greater than it.
pub open spec fn first_greatest(v: Seq<u32>, n: int) -> int
    decreases n,
{
    if n <= 1 {
        0
    } else {
        let best = first_greatest(v, n - 1);
        if float_bits::value_gt(v[n - 1], v[best]) {
            n - 1
        } else {
            best
        }
    }
}

/// The index of the first greatest value.
pub fn argmax(v: &[u32]) -> (best: usize)
    requires
        v.len() > 0,
    ensures
        best == first_greatest(v@, v.len() as int),
        best < v.len(),
        (forall|x: int| 0 <= x < v.len() ==> (#[trigger] v[x]) <= 0x7f80_0000) ==> forall|x: int|
            0 <= x < v.len() ==> (#[trigger] v[x]) <= v[best as int] && (x < best ==> v[x]
                < v[best as int]),
{
    let mut best: usize = 0;
    let mut i: usize = 1;
    while i < v.len()
        invariant
            1 <= i <= v.len(),
            best < i,
            best == first_greatest(v@, i as int),
            (forall|x: int| 0 <= x < v.len() ==> (#[trigger] v[x]) <= 0x7f80_0000) ==> forall|
                x: int,
            |
                0 <= x < i ==> (#[trigger] v[x]) <= v[best as int] && (x < best ==> v[x]
                    < v[best as int]),
        decreases v.len() - i,
    {
        if is_greater(v[i], v[best]) {
            best = i;
        }
        i += 1;
    }
    best
}

/// Among numbers, no value is greater than the chosen one, and every earlier one is
/// less.
pub proof fn law_argmax_is_the_first_greatest(v: Seq<u32>, n: int, i: int)
    requires
        0 < n <= v.len(),
        0 <= i < n,
        forall|x: int| 0 <= x < n ==> !float_bits::nan(#[trigger] v[x]),
    ensures
        0 <= first_greatest(v, n) < n,
        float_bits::value_key(v[i]) <= float_bits::value_key(v[first_greatest(v, n)]),
        i < first_greatest(v, n) ==> float_bits::value_key(v[i]) < float_bits::value_key(
            v[first_greatest(v, n)],
        ),
    decreases n,
{
    if n > 1 {
        let best = first_greatest(v, n - 1);
        law_argmax_is_the_first_greatest(
            v,
            n - 1,
            if i < n - 1 {
                i
            } else {
                0
            },
        );
        assert(!float_bits::nan(v[n - 1]));
        assert(!float_bits::nan(v[best]));
    }
}

/// Among numbers the chosen value stands before no greater one and after no equal one,
/// read off the patterns.
pub proof fn law_argmax_by_patterns(v: Seq<u32>, n: int, i: int)
    requires
        0 < n <= v.len(),
        0 <= i < n,
        forall|x: int|
            0 <= x < n ==> (#[trigger] v[x]) <= 0x7f80_0000 || 0x8000_0000 <= v[x] <= 0xff80_0000,
    ensures
        0 <= first_greatest(v, n) < n,
        ({
            let top = v[first_greatest(v, n)];
            &&& top < 0x8000_0000 && v[i] < 0x8000_0000 ==> v[i] <= top && (i < first_greatest(v, n)
                ==> v[i] < top)
            &&& top >= 0x8000_0000 && v[i] >= 0x8000_0000 ==> v[i] >= top && (i < first_greatest(
                v,
                n,
            ) ==> v[i] > top)
            &&& top >= 0x8000_0000 && v[i] < 0x8000_0000 ==> top == 0x8000_0000 && v[i] == 0 && i
                > first_greatest(v, n)
        }),
{
    assert forall|x: int| 0 <= x < n implies !float_bits::nan(#[trigger] v[x]) by {}
    law_argmax_is_the_first_greatest(v, n, i);
    assert(v[first_greatest(v, n)] <= 0xff80_0000);
}

/// Greedy decoding: the tokens so far, of `n_gen`.
pub struct Greedy {
    pub n_gen: usize,
    pub out: Vec<u32>,
}

impl Greedy {
    pub fn new(n_gen: usize) -> (g: Greedy)
        ensures
            g.n_gen == n_gen,
            g.out.len() == 0,
    {
        Greedy { n_gen, out: Vec::new() }
    }

    /// Takes the logits of the next position. Returns the token to feed next; nothing
    /// once all tokens are there, so the last one is not fed.
    pub fn step(&mut self, logits: &[u32]) -> (next: Option<u32>)
        requires
            0 < logits.len(),
            old(self).out.len() < old(self).n_gen,
        ensures
            final(self).n_gen == old(self).n_gen,
            final(self).out@ == old(self).out@.push(
                first_greatest(logits@, logits.len() as int) as u32,
            ),
            next == if old(self).out.len() + 1 == old(self).n_gen {
                None
            } else {
                Some(first_greatest(logits@, logits.len() as int) as u32)
            },
    {
        let t: u32 = argmax(logits) as u32;
        self.out.push(t);
        if self.out.len() == self.n_gen {
            None
        } else {
            Some(t)
        }
    }
}

/// A head is refused for an empty norm, for a divisor that is not a positive number, and
/// for a vocabulary that is empty or has more rows than the table.
pub proof fn law_sound_heads(norm: usize, mup: u32, unpadded: usize, unembed: nat)
    ensures
        head_fault(norm, mup, unpadded, unembed) is None <==> norm > 0 && 0 < mup <= 0x7f80_0000
            && unpadded >= 1 && unpadded * norm <= unembed,
{
}

/// The layer that is told as odd is the first whose width differs.
pub proof fn law_first_odd_layer(layers: Seq<usize>, hidden: usize, from: int)
    requires
        0 <= from <= layers.len(),
    ensures
        match odd_layer(layers, hidden, from) {
            Some(i) => from <= i < layers.len() && layers[i] != hidden && forall|x: int|
                from <= x < i ==> (#[trigger] layers[x]) == hidden,
            None => forall|x: int| from <= x < layers.len() ==> (#[trigger] layers[x]) == hidden,
        },
    decreases layers.len() - from,
{
    if from < layers.len() && layers[from] == hidden {
        law_first_odd_layer(layers, hidden, from + 1);
    }
}

/// A model is taken exactly where its tables have a row of the hidden width for each
/// token, its norms and layers have that width, and the vocabulary is cut to at least one
/// token and at most all.
pub proof fn law_sound_models(
    hidden: usize,
    vocab: usize,
    unpadded: usize,
    l: ModelLens,
    layers: Seq<usize>,
)
    ensures
        model_fault(hidden, vocab, unpadded, l, layers) is None <==> {
            &&& l.embed == vocab * hidden
            &&& l.unembed == vocab * hidden
            &&& l.embed_norm == hidden
            &&& l.norm == hidden
            &&& 1 <= unpadded <= vocab
            &&& forall|x: int| 0 <= x < layers.len() ==> (#[trigger] layers[x]) == hidden
        },
{
    law_first_odd_layer(layers, hidden, 0);
    if odd_layer(layers, hidden, 0) is Some {
        assert(layers[odd_layer(layers, hidden, 0)->0] != hidden);
    }
}

/// The next layer is predicted for, observed or read ahead for only where it routes; a
/// layer skips its own prediction where the one before has made it.
pub proof fn law_steps_look_one_layer_ahead(moe: Seq<bool>, early: bool, observed: bool, i: int)
    requires
        0 <= i < moe.len(),
    ensures
        ({
            let s = step_at(moe, early, observed, i);
            let routes = i + 1 < moe.len() && moe[i + 1];
            &&& s.read_next <==> routes && early
            &&& s.observe_next <==> routes && observed
            &&& s.predict_next <==> s.read_next || s.observe_next
            &&& s.skip_own <==> early && i > 0
        }),
{
}

/// The caches of a sequence take four bytes for each value: keys and values for each
/// cached position, and the inputs that the four convolutions keep.
pub proof fn law_bytes_of_the_caches(l: Layer)
    ensures
        l.held_bytes() == 4 * (2 * (l.attn.dims.cache_rows() * l.attn.dims.kv_width()) + (
        l.attn.state.k_sconv.history().rows() + l.attn.state.v_sconv.history().rows())
            * l.attn.dims.kv_width() + l.attn_sconv.conv.history().rows()
            * l.attn_sconv.conv.history().row_width() + l.mlp_sconv.conv.history().rows()
            * l.mlp_sconv.conv.history().row_width()),
{
    let a = l.attn.state.k_sconv.history().rows() as int;
    let b = l.attn.state.v_sconv.history().rows() as int;
    let w = l.attn.dims.kv_width();
    assert((a + b) * w == a * w + b * w) by (nonlinear_arith);
}

/// Answers of one kind are counted one by one.
pub proof fn law_answers_are_counted(r: Seq<Option<bool>>, want: bool)
    ensures
        answers(r, want) == r.filter(|x: Option<bool>| x == Some(want)).len(),
    decreases r.len(),
{
    reveal(Seq::filter);
    if r.len() > 0 {
        law_answers_are_counted(r.drop_last(), want);
    }
}

/// A counter over all layers is the sum of theirs.
pub proof fn law_counters_add_up(
    s: Seq<ExpertCacheStats>,
    x: ExpertCacheStats,
    f: spec_fn(ExpertCacheStats) -> int,
)
    ensures
        counter_total(Seq::empty(), f) == 0,
        counter_total(s.push(x), f) == counter_total(s, f) + f(x),
{
    assert(s.push(x).drop_last() =~= s);
}

/// A reset layer holds nothing of its live sequence, and keeps the parked ones.
pub proof fn law_a_reset_layer_is_empty(before: Layer, after: Layer, history: bool, q: int)
    requires
        layer_reset(before, after, history),
    ensures
        after.length() == 0,
        !after.attn.state.k.held().dom().contains(q),
        !after.attn.state.v.held().dom().contains(q),
        after.attn_sconv.conv.history().length() == 0,
        after.mlp_sconv.conv.history().length() == 0,
        after.attn.slots == before.attn.slots,
        after.attn_sconv.slots == before.attn_sconv.slots,
        after.mlp_sconv.slots == before.mlp_sconv.slots,
        !history ==> after.mlp == before.mlp,
{
    attn::law_a_fresh_sequence_is_empty(after.attn.state, q);
}

/// A layer that is rolled back is at the length asked for in all its parts, and keeps
/// what stands before it.
pub proof fn law_a_rolled_back_layer_keeps_what_is_before(
    before: Layer,
    after: Layer,
    len: nat,
    q: int,
)
    requires
        layer_truncated(before, after, len),
        q < len,
    ensures
        after.length() == len,
        after.attn_sconv.conv.history().length() == len,
        after.mlp_sconv.conv.history().length() == len,
        before.attn.state.k.held().dom().contains(q) ==> after.attn.state.k.held().dom().contains(q)
            && after.attn.state.k.held()[q] == before.attn.state.k.held()[q],
        before.attn.state.v.held().dom().contains(q) ==> after.attn.state.v.held().dom().contains(q)
            && after.attn.state.v.held()[q] == before.attn.state.v.held()[q],
        before.attn_sconv.conv.history().held().dom().contains(q)
            ==> after.attn_sconv.conv.history().held()[q]
            == before.attn_sconv.conv.history().held()[q],
        before.mlp_sconv.conv.history().held().dom().contains(q)
            ==> after.mlp_sconv.conv.history().held()[q]
            == before.mlp_sconv.conv.history().held()[q],
        after.mlp == before.mlp,
{
    attn::law_rollback_keeps_the_positions_before(before.attn.state, after.attn.state, len, q);
}

/// Parts of a layer are taken exactly where all of them have the hidden width.
pub proof fn law_sound_layer_widths(hidden: usize, l: LayerLens)
    ensures
        layer_fault(hidden, l) is None <==> l.attn_norm == hidden && l.mlp_norm == hidden
            && l.attention == hidden && l.attn_sconv == hidden && l.mlp_sconv == hidden && (
        l.moe matches Some(m) ==> m == hidden),
{
}

/// Attaching a backend changes nothing else of a layer; only a layer that routes takes a
/// fused or a remote one.
pub proof fn law_attaching_changes_nothing_else(l: Layer, n: u32, k_total: usize)
    ensures
        ov_attached(l, n).attn == l.attn && ov_moe_attached(l, n, k_total).attn == l.attn
            && remote_attached(l, n).attn == l.attn,
        l.mlp matches LayerMlp::Moe(m) ==> {
            &&& ov_attached(l, n).mlp matches LayerMlp::Moe(x) && x.ov == Some(n)
                && x.expert_cache == m.expert_cache && x.remote == m.remote && x.ov_moe == m.ov_moe
            &&& ov_moe_attached(l, n, k_total).mlp matches LayerMlp::Moe(x) && x.ov_moe == Some(
                (n, k_total),
            ) && x.expert_cache == m.expert_cache && x.remote == m.remote && x.ov == m.ov
            &&& remote_attached(l, n).mlp matches LayerMlp::Moe(x) && x.remote == Some(n)
                && x.expert_cache == m.expert_cache && x.ov == m.ov && x.ov_moe == m.ov_moe
        },
        l.mlp is Dense ==> ov_moe_attached(l, n, k_total) == l && remote_attached(l, n) == l,
{
}

/// A layer reads ahead only where it routes to experts of its own, through a cache, and
/// reading ahead is on.
pub proof fn law_layers_that_read_ahead(l: Layer, reads: bool)
    ensures
        predicts(l, reads) ==> reads && l.mlp is Moe,
        l.mlp matches LayerMlp::Moe(m) ==> (predicts(l, reads) <==> reads && m.remote is None
            && m.local_routed > 0 && m.expert_cache.stats.capacity_bytes > 0),
{
}

/// The counters of a model are those of its layers that route, in their order.
pub proof fn law_counters_of_the_routed_layers(layers: Seq<Layer>, l: Layer)
    ensures
        moe_stats(Seq::empty()) =~= Seq::<ExpertCacheStats>::empty(),
        l.mlp matches LayerMlp::Moe(m) ==> moe_stats(layers.push(l)) =~= moe_stats(layers).push(
            m.expert_cache.stats,
        ),
        l.mlp is Dense ==> moe_stats(layers.push(l)) =~= moe_stats(layers),
{
    assert(layers.push(l).drop_last() =~= layers);
}

/// More slots leave the live sequence and every slot as it is, and the new ones are empty;
/// slots are never taken away.
pub proof fn law_more_slots_leave_the_others(before: Layer, after: Layer, n: nat, i: int, q: int)
    requires
        slots_grown(before, after, n),
        0 <= i < after.attn.slots.len(),
    ensures
        after.attn.slots.len() >= n,
        after.attn.slots.len() >= before.attn.slots.len(),
        after.attn.slots.len() == n || after.attn.slots.len() == before.attn.slots.len(),
        after.attn.state == before.attn.state && after.mlp == before.mlp,
        after.attn.dims == before.attn.dims && after.hidden == before.hidden && after.eps
            == before.eps && after.attn.live == before.attn.live,
        after.attn_sconv.conv == before.attn_sconv.conv && after.mlp_sconv.conv
            == before.mlp_sconv.conv,
        i < before.attn.slots.len() ==> slot_length(after, i) == slot_length(before, i),
        i >= before.attn.slots.len() && i != before.attn.live ==> slot_length(after, i) == 0
            && !attn::slot_state(after.attn, i).k.held().dom().contains(q),
{
    if i < before.attn.slots.len() {
        assert(slot_same(before, after, i));
    } else if i != before.attn.live {
        assert(slot_fresh(after, i));
        attn::law_a_fresh_sequence_is_empty(attn::slot_state(after.attn, i), q);
    }
}

/// The live slot is the sequence at work; every other one is parked.
pub proof fn law_the_live_slot_is_at_work(l: Layer, i: int)
    ensures
        i == l.attn.live ==> attn::slot_state(l.attn, i) == l.attn.state,
        i != l.attn.live ==> attn::slot_state(l.attn, i) == l.attn.slots[i],
        i == l.attn_sconv.live ==> conv::slot_conv(l.attn_sconv, i) == l.attn_sconv.conv,
        i != l.attn_sconv.live ==> conv::slot_conv(l.attn_sconv, i) == l.attn_sconv.slots[i],
{
}

/// A slot is the same in two layers where its caches and its histories are.
pub proof fn law_the_same_slot_holds_the_same(a: Layer, b: Layer, i: int)
    ensures
        slot_same(a, b, i) <==> {
            &&& attn::slot_state(a.attn, i) == attn::slot_state(b.attn, i)
            &&& conv::slot_conv(a.attn_sconv, i) == conv::slot_conv(b.attn_sconv, i)
            &&& conv::slot_conv(a.mlp_sconv, i) == conv::slot_conv(b.mlp_sconv, i)
        },
        slot_same(a, b, i) ==> slot_length(a, i) == slot_length(b, i),
{
}

/// An opened slot is live and empty in all its parts; the layer keeps its shape and every
/// other slot.
pub proof fn law_opening_a_slot_keeps_the_layer(
    before: Layer,
    after: Layer,
    i: int,
    history: bool,
    other: int,
)
    requires
        slot_opened(before, after, i, history),
        0 <= other < before.attn.slots.len(),
        other != i,
    ensures
        after.hidden == before.hidden && after.eps == before.eps && after.attn.dims
            == before.attn.dims,
        after.attn.live == i,
        after.attn.slots.len() == before.attn.slots.len(),
        attn::slot_state(after.attn, i).length() == 0,
        conv::slot_conv(after.attn_sconv, i).history().length() == 0,
        conv::slot_conv(after.mlp_sconv, i).history().length() == 0,
        slot_length(after, other) == slot_length(before, other),
        !history ==> after.mlp == before.mlp,
{
    assert(slot_same(before, after, other));
}

/// A layer rolls back only where all its parts can.
pub proof fn law_all_parts_roll_back(l: Layer, len: nat)
    ensures
        l.can_truncate(len) <==> {
            &&& l.attn.state.k.can_truncate(len)
            &&& l.attn.state.v.can_truncate(len)
            &&& l.attn.state.k_sconv.history().can_truncate(len)
            &&& l.attn.state.v_sconv.history().can_truncate(len)
            &&& l.attn_sconv.conv.history().can_truncate(len)
            &&& l.mlp_sconv.conv.history().can_truncate(len)
        },
{
}

/// A layer takes remote workers that agree with it on the width of a row and the experts
/// of both kinds; one that does not route takes any.
pub proof fn law_remote_workers_that_fit(l: Layer, hidden: nat, n_routed: nat, n_shared: nat)
    ensures
        l.mlp matches LayerMlp::Moe(m) ==> (l.remote_fits(hidden, n_routed, n_shared) <==> m.hidden
            == hidden && m.n_routed == n_routed && m.n_shared == n_shared),
        l.mlp is Dense ==> l.remote_fits(hidden, n_routed, n_shared),
{
}

/// Totals count each counter apart: one layer more adds to each its own.
pub proof fn law_totals_add_each_counter(
    t: ExpertCacheStats,
    u: ExpertCacheStats,
    s: Seq<ExpertCacheStats>,
    x: ExpertCacheStats,
)
    requires
        totals_are(t, s),
        totals_are(u, s.push(x)),
    ensures
        u.capacity_bytes == t.capacity_bytes + x.capacity_bytes,
        u.retained_bytes == t.retained_bytes + x.retained_bytes,
        u.hits == t.hits + x.hits,
        u.hit_bytes == t.hit_bytes + x.hit_bytes,
        u.misses == t.misses + x.misses,
        u.admissions == t.admissions + x.admissions,
        u.evictions == t.evictions + x.evictions,
        u.history_resets == t.history_resets + x.history_resets,
        u.frequency_decays == t.frequency_decays + x.frequency_decays,
        u.recent_tie_admissions == t.recent_tie_admissions + x.recent_tie_admissions,
{
    assert(s.push(x).drop_last() =~= s);
}

} // verus!
