//! Attention sequence state: key and value rows per position, the histories of
//! the two input convolutions, and the pool of parked sequences.
//!
//! A sliding layer keeps `window + rewind` rows and sees the last `window`
//! positions; a global layer keeps one row per position up to its context and
//! sees them all. Every key that a position sees is held, across any series of
//! steps, rollbacks and restores, so nothing is ever zeroed.
use vstd::prelude::*;

use crate::inkling::conv::{self, ShortConv};
use crate::inkling::ring::{self, Ring, RingState, DEFAULT_REWIND};
use crate::text::{self, chars_of, same_text, text_of, trim};

verus! {

/// Shape and behaviour of one attention layer. The normalisation epsilon and the
/// log scaling constants are the bits of their numbers.
#[derive(Clone, Copy)]
pub struct AttnDims {
    pub hidden: usize,
    pub n_heads: usize,
    pub n_kv_heads: usize,
    pub head_dim: usize,
    pub d_rel: usize,
    /// The window of a sliding layer; nothing for a global one.
    pub window: Option<usize>,
    /// Rows of a global layer.
    pub max_seq: usize,
    pub eps: u32,
    pub n_floor: Option<u32>,
    pub alpha: u32,
    pub rewind: usize,
}

impl AttnDims {
    /// A global layer with the default rollback slack.
    pub fn global(
        hidden: usize,
        n_heads: usize,
        n_kv_heads: usize,
        head_dim: usize,
        d_rel: usize,
        max_seq: usize,
        eps: u32,
    ) -> (d: Self)
        ensures
            d == (AttnDims {
                hidden,
                n_heads,
                n_kv_heads,
                head_dim,
                d_rel,
                window: None,
                max_seq,
                eps,
                n_floor: None,
                alpha: 0,
                rewind: DEFAULT_REWIND,
            }),
    {
        AttnDims {
            hidden,
            n_heads,
            n_kv_heads,
            head_dim,
            d_rel,
            window: None,
            max_seq,
            eps,
            n_floor: None,
            alpha: 0,
            rewind: DEFAULT_REWIND,
        }
    }

    /// A sliding layer that sees `window` keys, with the default slack.
    pub fn sliding(
        hidden: usize,
        n_heads: usize,
        n_kv_heads: usize,
        head_dim: usize,
        d_rel: usize,
        window: usize,
        eps: u32,
    ) -> (d: Self)
        ensures
            d == (AttnDims {
                hidden,
                n_heads,
                n_kv_heads,
                head_dim,
                d_rel,
                window: Some(window),
                max_seq: 0,
                eps,
                n_floor: None,
                alpha: 0,
                rewind: DEFAULT_REWIND,
            }),
    {
        AttnDims {
            hidden,
            n_heads,
            n_kv_heads,
            head_dim,
            d_rel,
            window: Some(window),
            max_seq: 0,
            eps,
            n_floor: None,
            alpha: 0,
            rewind: DEFAULT_REWIND,
        }
    }

    /// Attaches log scaling; sliding layers ignore it.
    pub fn with_log_scaling(self, n_floor: u32, alpha: u32) -> (d: Self)
        ensures
            d == (AttnDims { n_floor: Some(n_floor), alpha, ..self }),
    {
        AttnDims { n_floor: Some(n_floor), alpha, ..self }
    }

    pub fn with_rewind(self, rewind: usize) -> (d: Self)
        ensures
            d == (AttnDims { rewind, ..self }),
    {
        AttnDims { rewind, ..self }
    }

    /// Values per cached row: every key-value head's vector.
    pub open spec fn kv_width(self) -> int {
        self.n_kv_heads * self.head_dim
    }

    /// Rows that the layer's cache keeps.
    pub open spec fn cache_rows(self) -> int {
        match self.window {
            Some(win) => win + self.rewind,
            None => self.max_seq as int,
        }
    }

    /// Head counts that divide, a non-empty window or context, and sizes that
    /// fit the machine.
    pub open spec fn valid(self) -> bool {
        &&& self.n_heads > 0
        &&& self.n_kv_heads > 0
        &&& self.head_dim > 0
        &&& self.n_heads % self.n_kv_heads == 0
        &&& self.window matches Some(win) ==> win >= 1
        &&& self.window is None ==> self.max_seq >= 1
        &&& self.kv_width() <= usize::MAX
        &&& self.cache_rows() <= usize::MAX
    }

    /// The first position that position `p` sees.
    pub open spec fn first_visible(self, p: int) -> int {
        match self.window {
            Some(win) => if p + 1 >= win {
                p + 1 - win
            } else {
                0
            },
            None => 0,
        }
    }
}

/// The caches of one sequence: keys, values, and the two convolution histories.
pub struct AttnState {
    pub k: Ring,
    pub v: Ring,
    pub k_sconv: ShortConv,
    pub v_sconv: ShortConv,
}

/// A saved sequence.
pub struct AttnKv {
    pub k: RingState,
    pub v: RingState,
    pub k_conv: RingState,
    pub v_conv: RingState,
}

/// The cache of one layer: keys and values for the dimensions `d`.
pub open spec fn cache_for(ring: Ring, d: AttnDims) -> bool {
    &&& ring.wf()
    &&& ring.row_width() == d.kv_width()
    &&& ring.rows() == d.cache_rows()
    &&& match d.window {
        Some(win) => ring.lookback() == win && ring.slack() == d.rewind && !ring.is_bounded(),
        None => ring.lookback() == d.max_seq && ring.slack() == 0 && ring.is_bounded(),
    }
}

impl AttnState {
    /// All four histories belong to one sequence of one layer.
    pub open spec fn wf(self, d: AttnDims) -> bool {
        &&& cache_for(self.k, d)
        &&& cache_for(self.v, d)
        &&& self.k_sconv.wf()
        &&& self.v_sconv.wf()
        &&& self.k_sconv.c == d.kv_width()
        &&& self.v_sconv.c == d.kv_width()
        &&& self.v.length() == self.k.length()
        &&& self.k_sconv.history().length() == self.k.length()
        &&& self.v_sconv.history().length() == self.k.length()
        &&& self.v.mark() == self.k.mark()
    }

    pub open spec fn length(self) -> nat {
        self.k.length()
    }

    /// Same layer, whatever the contents.
    pub open spec fn same_layer(self, other: AttnState) -> bool {
        &&& self.k.same_shape(other.k)
        &&& self.v.same_shape(other.v)
        &&& self.k_sconv.same_kernel(other.k_sconv)
        &&& self.v_sconv.same_kernel(other.v_sconv)
    }

    /// Every history can roll back to `len`.
    pub open spec fn can_truncate(self, len: nat) -> bool {
        &&& self.k.can_truncate(len)
        &&& self.v.can_truncate(len)
        &&& self.k_sconv.history().can_truncate(len)
        &&& self.v_sconv.history().can_truncate(len)
    }

    /// Nothing was written past the length.
    pub open spec fn undiscarded(self) -> bool {
        &&& self.k.mark() == self.k.length()
        &&& self.v.mark() == self.v.length()
        &&& self.k_sconv.history().mark() == self.k_sconv.history().length()
        &&& self.v_sconv.history().mark() == self.v_sconv.history().length()
    }

    /// Nothing consumed yet.
    pub open spec fn is_fresh(self) -> bool {
        &&& self.length() == 0
        &&& self.k.mark() == 0
        &&& self.k.held() =~= Map::empty()
        &&& self.v.held() =~= Map::empty()
        &&& conv::conv_fresh(self.k_sconv)
        &&& conv::conv_fresh(self.v_sconv)
    }
}

fn new_cache(d: AttnDims) -> (ring: Ring)
    requires
        d.valid(),
    ensures
        cache_for(ring, d),
        ring.length() == 0,
        ring.mark() == 0,
        ring.held() =~= Map::empty(),
{
    let width: usize = d.n_kv_heads * d.head_dim;
    match d.window {
        Some(win) => Ring::wrapping(width, win, d.rewind),
        None => Ring::linear(width, d.max_seq),
    }
}

/// One attention layer's sequence state, with its pool of parked sequences.
pub struct AttentionLayer {
    pub dims: AttnDims,
    /// The parked sequences; the entry of the live one is out of use.
    pub slots: Vec<AttnState>,
    /// Which slot the live state belongs to.
    pub live: usize,
    pub state: AttnState,
}

/// The sequence in a slot: the live state for the live slot, else the parked one.
pub open spec fn slot_state(layer: AttentionLayer, slot: int) -> AttnState {
    if slot == layer.live {
        layer.state
    } else {
        layer.slots[slot]
    }
}

/// `after` is `before` rolled back to `len` positions.
pub open spec fn state_truncated(before: AttnState, after: AttnState, len: nat) -> bool {
    &&& after.same_layer(before)
    &&& after.length() == len
    &&& after.k.mark() == before.k.mark()
    &&& after.k.held() =~= before.k.held().restrict(Set::new(|q: int| q < len))
    &&& after.v.held() =~= before.v.held().restrict(Set::new(|q: int| q < len))
    &&& conv::conv_truncated(before.k_sconv, after.k_sconv, len)
    &&& conv::conv_truncated(before.v_sconv, after.v_sconv, len)
}

/// `kv` holds everything that `state` still holds.
pub open spec fn state_saved(kv: AttnKv, state: AttnState) -> bool {
    &&& ring::saved_of(kv.k, state.k)
    &&& ring::saved_of(kv.v, state.v)
    &&& conv::conv_saved(kv.k_conv, state.k_sconv)
    &&& conv::conv_saved(kv.v_conv, state.v_sconv)
}

/// `after` is a sequence of the same layer with the saved contents.
pub open spec fn state_restored(before: AttnState, after: AttnState, kv: AttnKv) -> bool {
    &&& after.same_layer(before)
    &&& ring::restored_from(before.k, after.k, kv.k)
    &&& ring::restored_from(before.v, after.v, kv.v)
    &&& conv::conv_restored(before.k_sconv, after.k_sconv, kv.k_conv)
    &&& conv::conv_restored(before.v_sconv, after.v_sconv, kv.v_conv)
}

impl AttentionLayer {
    /// Only the live sequence may differ.
    pub open spec fn same_parked(self, other: AttentionLayer) -> bool {
        &&& self.dims == other.dims
        &&& self.slots == other.slots
        &&& self.live == other.live
        &&& self.state.same_layer(other.state)
    }

    pub open spec fn wf(self) -> bool {
        &&& self.dims.valid()
        &&& self.state.wf(self.dims)
        &&& self.pool_ok()
    }

    /// The parked sequences are of this layer, and the live slot is one of them.
    pub open spec fn pool_ok(self) -> bool {
        &&& self.slots.len() == 0 ==> self.live == 0
        &&& self.slots.len() > 0 ==> self.live < self.slots.len()
        &&& forall|i: int|
            0 <= i < self.slots.len() ==> {
                &&& (#[trigger] self.slots[i]).wf(self.dims)
                &&& self.slots[i].same_layer(self.state)
            }
    }

    /// A layer of these dimensions whose convolutions have as many channels as a
    /// cached row has values.
    pub fn from_parts(dims: AttnDims, k_sconv: ShortConv, v_sconv: ShortConv) -> (layer: Self)
        requires
            dims.valid(),
            k_sconv.wf(),
            v_sconv.wf(),
            k_sconv.c == dims.kv_width(),
            v_sconv.c == dims.kv_width(),
            k_sconv.history().length() == 0,
            v_sconv.history().length() == 0,
        ensures
            layer.wf(),
            layer.dims == dims,
            layer.slots.len() == 0,
            layer.live == 0,
            layer.state.length() == 0,
            layer.state.k.mark() == 0,
            layer.state.k.held() =~= Map::empty(),
            layer.state.v.held() =~= Map::empty(),
            layer.state.k_sconv == k_sconv,
            layer.state.v_sconv == v_sconv,
    {
        let k: Ring = new_cache(dims);
        let v: Ring = new_cache(dims);
        AttentionLayer {
            dims,
            slots: Vec::new(),
            live: 0,
            state: AttnState { k, v, k_sconv, v_sconv },
        }
    }

    /// Cached positions.
    pub fn len(&self) -> (n: usize)
        ensures
            n == self.state.length(),
    {
        self.state.k.len()
    }

    pub fn is_empty(&self) -> (b: bool)
        ensures
            b == (self.state.length() == 0),
    {
        self.state.k.is_empty()
    }

    pub fn dims(&self) -> (d: &AttnDims)
        ensures
            *d == self.dims,
    {
        &self.dims
    }

    pub fn window(&self) -> (w: Option<usize>)
        ensures
            w == self.dims.window,
    {
        self.dims.window
    }

    /// Bytes held by the caches and the two convolution histories.
    pub fn cache_bytes(&self) -> (n: usize)
        requires
            self.wf(),
            2 * (self.dims.cache_rows() * self.dims.kv_width() * 4)
                + self.state.k_sconv.history().rows() * self.dims.kv_width() * 4
                + self.state.v_sconv.history().rows() * self.dims.kv_width() * 4 <= usize::MAX,
        ensures
            n == 2 * (self.dims.cache_rows() * self.dims.kv_width() * 4)
                + self.state.k_sconv.history().rows() * self.dims.kv_width() * 4
                + self.state.v_sconv.history().rows() * self.dims.kv_width() * 4,
    {
        proof {
            let w = self.dims.kv_width();
            lemma_product_nonneg(self.dims.cache_rows(), w);
            lemma_product_nonneg(self.state.k_sconv.history().rows() as int, w);
            lemma_product_nonneg(self.state.v_sconv.history().rows() as int, w);
        }
        self.state.k.cache_bytes() + self.state.v.cache_bytes() + self.state.k_sconv.cache_bytes()
            + self.state.v_sconv.cache_bytes()
    }

    pub fn slot_count(&self) -> (n: usize)
        ensures
            n == self.slots.len(),
    {
        self.slots.len()
    }

    fn fresh_state(&self) -> (s: AttnState)
        requires
            self.wf(),
        ensures
            s.wf(self.dims),
            s.same_layer(self.state),
            s.is_fresh(),
    {
        let k: Ring = new_cache(self.dims);
        let v: Ring = new_cache(self.dims);
        let k_sconv: ShortConv = self.state.k_sconv.empty_like();
        let v_sconv: ShortConv = self.state.v_sconv.empty_like();
        AttnState { k, v, k_sconv, v_sconv }
    }

    /// Grows the pool to `n` sequences. The live state stays where it is and
    /// existing slots keep their sequences; new slots are fresh.
    pub fn ensure_slots(&mut self, n: usize)
        requires
            old(self).wf(),
        ensures
            final(self).wf(),
            final(self).dims == old(self).dims,
            final(self).live == old(self).live,
            final(self).state == old(self).state,
            final(self).slots.len() == if n > old(self).slots.len() {
                n as nat
            } else {
                old(self).slots.len() as nat
            },
            forall|i: int|
                0 <= i < old(self).slots.len() ==> #[trigger] final(self).slots[i] == old(self).slots[i],
            forall|i: int|
                old(self).slots.len() <= i < final(self).slots.len() ==> (#[trigger] final(self).slots[i]).is_fresh(),
    {
        while self.slots.len() < n
            invariant
                self.wf(),
                self.dims == old(self).dims,
                self.live == old(self).live,
                self.state == old(self).state,
                old(self).slots.len() <= self.slots.len(),
                self.slots.len() <= n || self.slots.len() == old(self).slots.len(),
                forall|i: int|
                    0 <= i < old(self).slots.len() ==> #[trigger] self.slots[i] == old(self).slots[i],
                forall|i: int|
                    old(self).slots.len() <= i < self.slots.len() ==> (
                    #[trigger] self.slots[i]).is_fresh(),
            decreases n - self.slots.len(),
        {
            let s: AttnState = self.fresh_state();
            self.slots.push(s);
        }
    }

    /// Makes the sequence of `slot` the live one and parks the current one.
    /// Every slot keeps its sequence.
    pub fn select(&mut self, slot: usize)
        requires
            old(self).wf(),
            slot < old(self).slots.len(),
        ensures
            final(self).wf(),
            final(self).dims == old(self).dims,
            final(self).live == slot,
            final(self).slots.len() == old(self).slots.len(),
            final(self).state.same_layer(old(self).state),
            forall|i: int|
                0 <= i < old(self).slots.len() ==> #[trigger] slot_state(*final(self), i)
                    == slot_state(*old(self), i),
    {
        if slot == self.live {
            return;
        }
        let cur: usize = self.live;
        std::mem::swap(&mut self.state, &mut self.slots[cur]);
        std::mem::swap(&mut self.state, &mut self.slots[slot]);
        self.live = slot;
    }

    /// Clears the caches for a new sequence.
    pub fn reset(&mut self)
        requires
            old(self).wf(),
        ensures
            final(self).wf(),
            final(self).same_parked(*old(self)),
            final(self).state.is_fresh(),
    {
        self.state.k.reset();
        self.state.v.reset();
        self.state.k_sconv.reset();
        self.state.v_sconv.reset();
    }

    /// Rolls the live sequence back to `len` positions.
    pub fn truncate(&mut self, len: usize)
        requires
            old(self).wf(),
            old(self).state.can_truncate(len as nat),
        ensures
            final(self).wf(),
            final(self).same_parked(*old(self)),
            state_truncated(old(self).state, final(self).state, len as nat),
    {
        self.state.k.truncate(len);
        self.state.v.truncate(len);
        self.state.k_sconv.truncate(len);
        self.state.v_sconv.truncate(len);
    }

    /// Whether [`AttentionLayer::truncate`] to `len` is within every slack.
    pub fn truncatable(&self, len: usize) -> (b: bool)
        requires
            self.wf(),
        ensures
            b == self.state.can_truncate(len as nat),
    {
        self.state.k.truncatable(len) && self.state.v.truncatable(len)
            && self.state.k_sconv.ring.truncatable(len) && self.state.v_sconv.ring.truncatable(len)
    }

    /// Saves the live sequence.
    pub fn snapshot(&self) -> (kv: AttnKv)
        requires
            self.wf(),
        ensures
            kv.fits(self.state, self.dims),
            state_saved(kv, self.state),
    {
        AttnKv {
            k: self.state.k.snapshot(),
            v: self.state.v.snapshot(),
            k_conv: self.state.k_sconv.snapshot(),
            v_conv: self.state.v_sconv.snapshot(),
        }
    }

    /// Replaces the live sequence by a saved one.
    pub fn restore(&mut self, kv: &AttnKv)
        requires
            old(self).wf(),
            kv.fits(old(self).state, old(self).dims),
            kv.k.length() + old(self).dims.cache_rows() <= usize::MAX,
            kv.k.length() + old(self).state.k_sconv.history().rows() <= usize::MAX,
            kv.k.length() + old(self).state.v_sconv.history().rows() <= usize::MAX,
        ensures
            final(self).wf(),
            final(self).same_parked(*old(self)),
            state_restored(old(self).state, final(self).state, *kv),
    {
        self.state.k.restore(&kv.k);
        self.state.v.restore(&kv.v);
        self.state.k_sconv.restore(&kv.k_conv);
        self.state.v_sconv.restore(&kv.v_conv);
    }

    /// Everything but the live sequence.
    pub open spec fn same_pool(self, other: AttentionLayer) -> bool {
        &&& self.dims == other.dims
        &&& self.live == other.live
        &&& self.slots == other.slots
    }

    /// Feeds the raw key and value rows of the next position to the two
    /// convolutions and gives the inputs that each of them reads.
    pub fn consume(&mut self, kr: &[u32], vr: &[u32]) -> (taps: (
        Vec<Option<Vec<u32>>>,
        Vec<Option<Vec<u32>>>,
    ))
        requires
            old(self).wf(),
            kr.len() == old(self).dims.kv_width(),
            vr.len() == old(self).dims.kv_width(),
            old(self).state.length() < usize::MAX,
        ensures
            final(self).same_pool(*old(self)),
            final(self).pool_ok(),
            final(self).state.consumed_ahead(old(self).dims, 1),
            final(self).state.same_layer(old(self).state),
            final(self).state.k == old(self).state.k,
            final(self).state.v == old(self).state.v,
            conv::conv_stepped(old(self).state.k_sconv, final(self).state.k_sconv, kr@),
            conv::conv_stepped(old(self).state.v_sconv, final(self).state.v_sconv, vr@),
            conv::taps_for(
                taps.0@,
                old(self).state.k_sconv.history().held(),
                old(self).state.length() as int,
                seq![kr@],
                0,
                old(self).state.k_sconv.k as int,
            ),
            conv::taps_for(
                taps.1@,
                old(self).state.v_sconv.history().held(),
                old(self).state.length() as int,
                seq![vr@],
                0,
                old(self).state.v_sconv.k as int,
            ),
    {
        let k: Vec<Option<Vec<u32>>> = self.state.k_sconv.decode(kr);
        let v: Vec<Option<Vec<u32>>> = self.state.v_sconv.decode(vr);
        (k, v)
    }

    /// Feeds the raw key and value rows of the next `rows` positions to the two
    /// convolutions and gives the inputs that each position reads.
    pub fn consume_rows(&mut self, kr: &[u32], vr: &[u32], rows: usize) -> (taps: (
        Vec<Vec<Option<Vec<u32>>>>,
        Vec<Vec<Option<Vec<u32>>>>,
    ))
        requires
            old(self).wf(),
            kr.len() == rows * old(self).dims.kv_width(),
            vr.len() == rows * old(self).dims.kv_width(),
            old(self).state.length() + rows <= usize::MAX,
        ensures
            final(self).same_pool(*old(self)),
            final(self).pool_ok(),
            final(self).state.consumed_ahead(old(self).dims, rows as nat),
            final(self).state.same_layer(old(self).state),
            final(self).state.k == old(self).state.k,
            final(self).state.v == old(self).state.v,
            conv::conv_fed(
                old(self).state.k_sconv,
                final(self).state.k_sconv,
                kr@,
                rows as nat,
            ),
            conv::conv_fed(
                old(self).state.v_sconv,
                final(self).state.v_sconv,
                vr@,
                rows as nat,
            ),
            conv::taps_fed(taps.0@, old(self).state.k_sconv, kr@, rows as nat),
            conv::taps_fed(taps.1@, old(self).state.v_sconv, vr@, rows as nat),
    {
        let k: Vec<Vec<Option<Vec<u32>>>> = self.state.k_sconv.prefill(kr, rows);
        let v: Vec<Vec<Option<Vec<u32>>>> = self.state.v_sconv.prefill(vr, rows);
        (k, v)
    }

    /// Caches the key and value rows of the next position and gives the first
    /// position that it sees. The convolutions have already consumed it, and may be
    /// further ahead.
    pub fn attend(&mut self, kc: &[u32], v: &[u32]) -> (first: usize)
        requires
            old(self).dims.valid(),
            old(self).pool_ok(),
            old(self).state.ahead() > 0,
            old(self).state.consumed_ahead(old(self).dims, old(self).state.ahead() as nat),
            kc.len() == old(self).dims.kv_width(),
            v.len() == old(self).dims.kv_width(),
            old(self).dims.window is None ==> old(self).state.length() < old(self).dims.max_seq,
            old(self).state.length() < usize::MAX,
        ensures
            final(self).same_pool(*old(self)),
            final(self).pool_ok(),
            final(self).state.ahead() == old(self).state.ahead() - 1,
            final(self).state.consumed_ahead(old(self).dims, final(self).state.ahead() as nat),
            old(self).state.ahead() == 1 ==> final(self).wf(),
            final(self).state.same_layer(old(self).state),
            final(self).state.k_sconv == old(self).state.k_sconv,
            final(self).state.v_sconv == old(self).state.v_sconv,
            ring::pushed(old(self).state.k, final(self).state.k, kc@),
            ring::pushed(old(self).state.v, final(self).state.v, v@),
            first == old(self).dims.first_visible(old(self).state.length() as int),
            old(self).dims.window is None ==> first == 0,
            old(self).dims.window matches Some(win) ==> old(self).state.length() + 1 - first == if old(
                self,
            ).state.length() + 1 < win {
                old(self).state.length() + 1
            } else {
                win as nat
            },
            final(self).state.k.oldest() <= first,
    {
        let p: usize = self.state.k.len();
        self.state.k.push(kc);
        self.state.v.push(v);
        proof {
            self.state.k.law_mark_covers_the_length();
            self.state.k.law_lookback_is_held(self.dims.first_visible(p as int));
        }
        match self.dims.window {
            Some(win) => if p + 1 >= win {
                p + 1 - win
            } else {
                0
            },
            None => 0,
        }
    }
}

impl AttnKv {
    /// The snapshot can be restored into a sequence like `state`.
    pub open spec fn fits(self, state: AttnState, d: AttnDims) -> bool {
        &&& self.k.wf(d.kv_width() as nat)
        &&& self.v.wf(d.kv_width() as nat)
        &&& self.k_conv.wf(d.kv_width() as nat)
        &&& self.v_conv.wf(d.kv_width() as nat)
        &&& self.v.length() == self.k.length()
        &&& self.k_conv.length() == self.k.length()
        &&& self.v_conv.length() == self.k.length()
        &&& self.v.start() == self.k.start()
        &&& self.k.supports(state.k.lookback())
        &&& self.v.supports(state.v.lookback())
        &&& self.k_conv.supports((state.k_sconv.k - 1) as nat)
        &&& self.v_conv.supports((state.v_sconv.k - 1) as nat)
        &&& d.window is None ==> self.k.start() == 0 && self.k.length() <= d.max_seq
    }

    /// Every part holds rows of `width` values.
    pub open spec fn parts_wf(self, width: nat) -> bool {
        &&& self.k.wf(width)
        &&& self.v.wf(width)
        &&& self.k_conv.wf(width)
        &&& self.v_conv.wf(width)
    }

    pub open spec fn size(self, width: int) -> int {
        self.k.size(width) + self.v.size(width) + self.k_conv.size(width) + self.v_conv.size(width)
    }

    /// Payload size in bytes.
    pub fn bytes(&self, width: usize) -> (n: usize)
        requires
            self.parts_wf(width as nat),
            self.size(width as int) <= usize::MAX,
        ensures
            n == self.size(width as int),
    {
        proof {
            self.k.lemma_size_nonneg(width as int);
            self.v.lemma_size_nonneg(width as int);
            self.k_conv.lemma_size_nonneg(width as int);
            self.v_conv.lemma_size_nonneg(width as int);
        }
        self.k.bytes(width) + self.v.bytes(width) + self.k_conv.bytes(width) + self.v_conv.bytes(
            width,
        )
    }

    pub proof fn lemma_size_nonneg(self, width: int)
        requires
            self.parts_wf(width as nat),
            0 <= width,
        ensures
            0 <= self.size(width),
    {
        self.k.lemma_size_nonneg(width);
        self.v.lemma_size_nonneg(width);
        self.k_conv.lemma_size_nonneg(width);
        self.v_conv.lemma_size_nonneg(width);
    }

    /// Cached positions this snapshot covers.
    pub fn len(&self) -> (n: usize)
        ensures
            n == self.k.length(),
    {
        self.k.len()
    }

    pub fn is_empty(&self) -> (b: bool)
        ensures
            b == (self.k.length() == 0),
    {
        self.k.is_empty()
    }
}

impl AttnState {
    /// Positions that the convolutions have consumed beyond those that are cached.
    pub open spec fn ahead(self) -> int {
        self.k_sconv.history().length() - self.k.length()
    }

    /// Sound, with the convolutions `n` positions ahead of the caches.
    pub open spec fn consumed_ahead(self, d: AttnDims, n: nat) -> bool {
        &&& cache_for(self.k, d)
        &&& cache_for(self.v, d)
        &&& self.k_sconv.wf()
        &&& self.v_sconv.wf()
        &&& self.k_sconv.c == d.kv_width()
        &&& self.v_sconv.c == d.kv_width()
        &&& self.v.length() == self.k.length()
        &&& self.k_sconv.history().length() == self.k.length() + n
        &&& self.v_sconv.history().length() == self.k.length() + n
        &&& self.v.mark() == self.k.mark()
    }
}

proof fn lemma_product_nonneg(a: int, b: int)
    requires
        0 <= a,
        0 <= b,
    ensures
        0 <= a * b * 4,
{
    assert(0 <= a * b * 4) by (nonlinear_arith)
        requires
            0 <= a,
            0 <= b,
    ;
}

impl AttnDims {
    /// On a sliding layer a key is visible from `p` exactly where it lies less than the
    /// window back, and so many of them are visible as there are, up to the window. On
    /// a global layer every key up to `p` is visible.
    pub proof fn law_window_of_visible_keys(self, p: int, j: int)
        requires
            self.valid(),
            0 <= p,
        ensures
            match self.window {
                Some(win) => {
                    &&& self.first_visible(p) <= j <= p <==> 0 <= j && p - win < j <= p
                    &&& p + 1 - self.first_visible(p) == if p + 1 < win {
                        p + 1
                    } else {
                        win as int
                    }
                },
                None => {
                    &&& self.first_visible(p) <= j <= p <==> 0 <= j <= p
                    &&& p + 1 - self.first_visible(p) == p + 1
                },
            },
    {
    }
}

impl AttentionLayer {
    /// Every position that the last one sees is held in both caches.
    pub proof fn law_visible_keys_are_held(self, q: int)
        requires
            self.wf(),
            self.state.length() > 0,
            self.dims.first_visible(self.state.length() - 1) <= q < self.state.length(),
        ensures
            self.state.k.held().dom().contains(q),
            self.state.v.held().dom().contains(q),
    {
        self.state.k.law_mark_covers_the_length();
        self.state.v.law_mark_covers_the_length();
        self.state.k.law_lookback_is_held(q);
        self.state.v.law_lookback_is_held(q);
    }

    /// The key-value head that query head `h` reads.
    pub fn kv_head(&self, h: usize) -> (kvh: usize)
        requires
            self.dims.valid(),
            h < self.dims.n_heads,
        ensures
            kvh == h as int / (self.dims.n_heads as int / self.dims.n_kv_heads as int),
            kvh * self.dims.n_heads <= h * self.dims.n_kv_heads < (kvh + 1) * self.dims.n_heads,
            kvh < self.dims.n_kv_heads,
    {
        proof {
            let n = self.dims.n_heads as int;
            let m = self.dims.n_kv_heads as int;
            vstd::arithmetic::div_mod::lemma_fundamental_div_mod(n, m);
            let g = n / m;
            assert(g >= 1) by (nonlinear_arith)
                requires
                    n == m * g,
                    n > 0,
                    m > 0,
            ;
            vstd::arithmetic::div_mod::lemma_fundamental_div_mod(h as int, g);
            let a = h as int / g;
            assert(a < m) by (nonlinear_arith)
                requires
                    h < m * g,
                    h == g * a + h as int % g,
                    h as int % g >= 0,
                    g >= 1,
            ;
            let r = h as int % g;
            assert(a * n <= h * m < (a + 1) * n) by (nonlinear_arith)
                requires
                    n == m * g,
                    h == g * a + r,
                    0 <= r < g,
                    m > 0,
            ;
        }
        h / (self.dims.n_heads / self.dims.n_kv_heads)
    }

    /// Whether a frame may decode these slots together: each is in the pool and
    /// none is listed twice.
    pub fn rows_selectable(&self, slots: &[usize]) -> (b: bool)
        ensures
            b == slots_distinct(slots@, self.slots.len() as int),
    {
        let mut i: usize = 0;
        while i < slots.len()
            invariant
                i <= slots.len(),
                slots_distinct(slots@.take(i as int), self.slots.len() as int),
            decreases slots.len() - i,
        {
            proof {
                let head = slots@.take(i + 1);
                assert(head[i as int] == slots@[i as int]);
                assert(head.take(i as int) =~= slots@.take(i as int));
            }
            if slots[i] >= self.slots.len() {
                return false;
            }
            let mut j: usize = 0;
            while j < i
                invariant
                    j <= i < slots.len(),
                    forall|x: int| 0 <= x < j ==> slots[x] != slots[i as int],
                decreases i - j,
            {
                if slots[j] == slots[i] {
                    assert(slots@[j as int] == slots@[i as int]);
                    return false;
                }
                j += 1;
            }
            proof {
                let head = slots@.take(i + 1);
                assert forall|x: int, y: int| 0 <= x < y < head.len() implies head[x] != head[y] by {
                    if y < i {
                        assert(slots@.take(i as int)[x] != slots@.take(i as int)[y]);
                    }
                }
                assert forall|x: int| 0 <= x < head.len() implies (#[trigger] head[x])
                    < self.slots.len() by {
                    if x < i {
                        assert(slots@.take(i as int)[x] < self.slots.len());
                    }
                }
            }
            i += 1;
        }
        proof {
            assert(slots@.take(slots.len() as int) =~= slots@);
        }
        true
    }
}

/// Slots of a pool of `n`, none twice.
pub open spec fn slots_distinct(slots: Seq<usize>, n: int) -> bool {
    &&& forall|i: int| 0 <= i < slots.len() ==> (#[trigger] slots[i]) < n
    &&& forall|i: int, j: int| 0 <= i < j < slots.len() ==> slots[i] != slots[j]
}

// ----------------------------------------------------------------- layer parts

/// Lengths of the parts that a layer is assembled from.
#[derive(Clone, Copy)]
pub struct PartLens {
    pub wq: usize,
    pub wk: usize,
    pub wv: usize,
    pub wr: usize,
    pub wo: usize,
    pub q_norm: usize,
    pub k_norm: usize,
    pub k_channels: usize,
    pub v_channels: usize,
    pub rel_dim: usize,
}

/// What is wrong with the parts of a layer.
#[derive(Clone, Copy, PartialEq, Eq, Structural, Debug)]
pub enum PartsError {
    EmptyHeads,
    HeadsNotMultiple,
    Projection { index: usize },
    QueryNorm,
    KeyNorm,
    KeyConv,
    ValueConv,
    RelDim,
    EmptyWindow,
    EmptyContext,
}

/// The expected length of projection `i`: query, key, value, position, output.
pub open spec fn projection_len(d: AttnDims, i: int) -> int {
    if i == 0 {
        d.n_heads * d.head_dim * d.hidden
    } else if i == 1 || i == 2 {
        d.n_kv_heads * d.head_dim * d.hidden
    } else if i == 3 {
        d.n_heads * d.d_rel * d.hidden
    } else {
        d.hidden * d.n_heads * d.head_dim
    }
}

/// The first fault of a layer's parts.
pub open spec fn parts_fault(d: AttnDims, l: PartLens) -> Option<PartsError> {
    if d.n_heads == 0 || d.n_kv_heads == 0 || d.head_dim == 0 {
        Some(PartsError::EmptyHeads)
    } else if d.n_heads % d.n_kv_heads != 0 {
        Some(PartsError::HeadsNotMultiple)
    } else if l.wq != projection_len(d, 0) {
        Some(PartsError::Projection { index: 0 })
    } else if l.wk != projection_len(d, 1) {
        Some(PartsError::Projection { index: 1 })
    } else if l.wv != projection_len(d, 2) {
        Some(PartsError::Projection { index: 2 })
    } else if l.wr != projection_len(d, 3) {
        Some(PartsError::Projection { index: 3 })
    } else if l.wo != projection_len(d, 4) {
        Some(PartsError::Projection { index: 4 })
    } else if l.q_norm != d.head_dim {
        Some(PartsError::QueryNorm)
    } else if l.k_norm != d.head_dim {
        Some(PartsError::KeyNorm)
    } else if l.k_channels != d.kv_width() {
        Some(PartsError::KeyConv)
    } else if l.v_channels != d.kv_width() {
        Some(PartsError::ValueConv)
    } else if l.rel_dim != d.d_rel {
        Some(PartsError::RelDim)
    } else if d.window == Some(0usize) {
        Some(PartsError::EmptyWindow)
    } else if d.window is None && d.max_seq == 0 {
        Some(PartsError::EmptyContext)
    } else {
        None
    }
}

/// Whether `a * b * c` is `n`, whatever the sizes.
fn product_is(a: usize, b: usize, c: usize, n: usize) -> (r: bool)
    ensures
        r == (a * b * c == n),
{
    proof {
        assert(0 <= a * b <= u64::MAX * u64::MAX) by (nonlinear_arith)
            requires
                0 <= a <= u64::MAX,
                0 <= b <= u64::MAX,
        ;
    }
    let ab: u128 = a as u128 * b as u128;
    if c == 0 {
        assert(ab * c == 0) by (nonlinear_arith)
            requires
                c == 0,
        ;
        return n == 0;
    }
    if ab > n as u128 {
        assert(ab * c > n) by (nonlinear_arith)
            requires
                ab > n,
                c >= 1,
                n >= 0,
        ;
        return false;
    }
    proof {
        assert(0 <= ab * c <= u64::MAX * u64::MAX) by (nonlinear_arith)
            requires
                0 <= ab <= u64::MAX,
                0 <= c <= u64::MAX,
        ;
    }
    ab * c as u128 == n as u128
}

/// Checks a layer's parts against its dimensions.
pub fn check_parts(d: AttnDims, l: PartLens) -> (r: Result<(), PartsError>)
    ensures
        r == match parts_fault(d, l) {
            Some(e) => Err::<(), PartsError>(e),
            None => Ok(()),
        },
{
    if d.n_heads == 0 || d.n_kv_heads == 0 || d.head_dim == 0 {
        return Err(PartsError::EmptyHeads);
    }
    if d.n_heads % d.n_kv_heads != 0 {
        return Err(PartsError::HeadsNotMultiple);
    }
    if !product_is(d.n_heads, d.head_dim, d.hidden, l.wq) {
        return Err(PartsError::Projection { index: 0 });
    }
    if !product_is(d.n_kv_heads, d.head_dim, d.hidden, l.wk) {
        return Err(PartsError::Projection { index: 1 });
    }
    if !product_is(d.n_kv_heads, d.head_dim, d.hidden, l.wv) {
        return Err(PartsError::Projection { index: 2 });
    }
    if !product_is(d.n_heads, d.d_rel, d.hidden, l.wr) {
        return Err(PartsError::Projection { index: 3 });
    }
    if !product_is(d.hidden, d.n_heads, d.head_dim, l.wo) {
        return Err(PartsError::Projection { index: 4 });
    }
    if l.q_norm != d.head_dim {
        return Err(PartsError::QueryNorm);
    }
    if l.k_norm != d.head_dim {
        return Err(PartsError::KeyNorm);
    }
    proof {
        assert(d.kv_width() * 1 == d.kv_width());
    }
    if !product_is(d.n_kv_heads, d.head_dim, 1, l.k_channels) {
        return Err(PartsError::KeyConv);
    }
    if !product_is(d.n_kv_heads, d.head_dim, 1, l.v_channels) {
        return Err(PartsError::ValueConv);
    }
    if l.rel_dim != d.d_rel {
        return Err(PartsError::RelDim);
    }
    match d.window {
        Some(win) => if win == 0 {
            return Err(PartsError::EmptyWindow);
        },
        None => if d.max_seq == 0 {
            return Err(PartsError::EmptyContext);
        },
    }
    Ok(())
}

/// Whether the rows of several sequences attend in parallel: unless the setting is zero.
pub fn row_parallel_attention(setting: Option<&str>) -> (on: bool)
    ensures
        on == (setting matches Some(s) ==> text::trimmed(s@) != "0"@),
{
    match setting {
        Some(s) => {
            let v: Vec<char> = chars_of(s);
            let t: String = text_of(trim(v.as_slice()).as_slice());
            !same_text(t.as_str(), "0")
        },
        None => true,
    }
}

/// Lengths of the five projection tables, held by the layer or mapped.
#[derive(Clone, Copy)]
pub struct TableLens {
    pub wq: usize,
    pub wk: usize,
    pub wv: usize,
    pub wr: usize,
    pub wo: usize,
}

impl TableLens {
    pub open spec fn total(self) -> int {
        self.wq + self.wk + self.wv + self.wr + self.wo
    }
}

/// Where the projection tables of a layer are.
pub struct Projections {
    pub owned: TableLens,
    pub mapped: Option<TableLens>,
}

impl Projections {
    /// Values in all tables.
    pub open spec fn values(self) -> int {
        self.owned.total() + match self.mapped {
            Some(m) => m.total(),
            None => 0,
        }
    }

    /// Nothing is left to fall back to.
    pub open spec fn released(self) -> bool {
        self.mapped is None && self.owned.wq == 0
    }

    /// Frees the tables once a device serves them and gives the bytes released,
    /// at two bytes a value.
    pub fn release_rust_projections(&mut self) -> (bytes: usize)
        requires
            2 * old(self).values() <= usize::MAX,
        ensures
            bytes == 2 * old(self).values(),
            final(self).released(),
            final(self).values() == 0,
    {
        let o: TableLens = self.owned;
        let mut n: usize = o.wq + o.wk + o.wv + o.wr + o.wo;
        if let Some(m) = self.mapped {
            n = n + m.wq + m.wk + m.wv + m.wr + m.wo;
        }
        self.owned = TableLens { wq: 0, wk: 0, wv: 0, wr: 0, wo: 0 };
        self.mapped = None;
        2 * n
    }

    /// Frees the tables after the layer's device model was warmed: nothing without a
    /// device model, and no bytes where warming it failed and the tables must stay.
    pub fn release_rust_attention_weights(&mut self, warmed: Option<bool>) -> (bytes: Option<usize>)
        requires
            2 * old(self).values() <= usize::MAX,
        ensures
            bytes == match warmed {
                None => None::<usize>,
                Some(true) => Some((2 * old(self).values()) as usize),
                Some(false) => Some(0usize),
            },
            warmed == Some(true) ==> final(self).released() && final(self).values() == 0,
            warmed != Some(true) ==> *final(self) == *old(self),
    {
        match warmed {
            None => None,
            Some(true) => Some(self.release_rust_projections()),
            Some(false) => Some(0),
        }
    }

    /// Whether a layer of this hidden size has nothing left to fall back to.
    pub fn rust_projections_released(&self, hidden: usize) -> (b: bool)
        ensures
            b == (self.released() && hidden > 0),
    {
        self.mapped.is_none() && self.owned.wq == 0 && hidden > 0
    }
}

impl AttnDims {
    /// A sliding layer caches its window and the positions that it can be rolled back
    /// by, a global one every position of its context.
    pub proof fn law_cache_holds_the_window(self)
        ensures
            self.window matches Some(win) ==> self.cache_rows() - self.rewind == win,
            self.window is None ==> self.cache_rows() == self.max_seq,
            self.kv_width() == self.head_dim * self.n_kv_heads,
    {
        assert(self.kv_width() == self.head_dim * self.n_kv_heads) by (nonlinear_arith)
            requires
                self.kv_width() == self.n_kv_heads * self.head_dim,
        ;
    }

    /// The projections by their rows and columns: queries for every head, keys and
    /// values for every key-value head, the relative features of every head, and back
    /// from all heads to the hidden width.
    pub proof fn law_projection_shapes(self)
        ensures
            projection_len(self, 0) == (self.n_heads * self.head_dim) * self.hidden,
            projection_len(self, 1) == self.kv_width() * self.hidden,
            projection_len(self, 2) == self.kv_width() * self.hidden,
            projection_len(self, 3) == (self.n_heads * self.d_rel) * self.hidden,
            projection_len(self, 4) == projection_len(self, 0),
            self.n_heads == self.n_kv_heads ==> projection_len(self, 0) == projection_len(self, 1),
    {
        assert(self.hidden * self.n_heads * self.head_dim == (self.n_heads * self.head_dim)
            * self.hidden) by (nonlinear_arith);
    }
}

/// The parts of a layer are taken exactly where the heads divide, every projection has
/// the rows and columns of its role, the norms the width of a head, the convolutions the
/// width of all keys, and there is room for at least one position.
pub proof fn law_sound_parts(d: AttnDims, l: PartLens)
    ensures
        parts_fault(d, l) is None <==> {
            &&& d.n_heads > 0 && d.n_kv_heads > 0 && d.head_dim > 0
            &&& d.n_heads % d.n_kv_heads == 0
            &&& l.wq == d.n_heads * d.head_dim * d.hidden
            &&& l.wk == d.n_kv_heads * d.head_dim * d.hidden
            &&& l.wv == d.n_kv_heads * d.head_dim * d.hidden
            &&& l.wr == d.n_heads * d.d_rel * d.hidden
            &&& l.wo == d.hidden * d.n_heads * d.head_dim
            &&& l.q_norm == d.head_dim && l.k_norm == d.head_dim
            &&& l.k_channels == d.n_kv_heads * d.head_dim
            &&& l.v_channels == d.n_kv_heads * d.head_dim
            &&& l.rel_dim == d.d_rel
            &&& d.window matches Some(w) ==> w > 0
            &&& d.window is None ==> d.max_seq > 0
        },
{
}

/// Rolled back, a sequence holds the keys and values of the positions that are left as
/// they were, and none beyond.
pub proof fn law_rollback_keeps_the_positions_before(
    before: AttnState,
    after: AttnState,
    len: nat,
    q: int,
)
    requires
        state_truncated(before, after, len),
    ensures
        after.length() == len,
        q < len ==> (after.k.held().dom().contains(q) <==> before.k.held().dom().contains(q)),
        q < len ==> (after.v.held().dom().contains(q) <==> before.v.held().dom().contains(q)),
        after.k.held().dom().contains(q) ==> after.k.held()[q] == before.k.held()[q],
        after.v.held().dom().contains(q) ==> after.v.held()[q] == before.v.held()[q],
        q >= len ==> !after.k.held().dom().contains(q) && !after.v.held().dom().contains(q),
        after.k_sconv.history().length() == len,
        after.v_sconv.history().length() == len,
        after.k.mark() == before.k.mark(),
        after.k_sconv.history().mark() == before.k_sconv.history().mark(),
        after.v_sconv.history().mark() == before.v_sconv.history().mark(),
{
}

/// A fresh sequence holds nothing.
pub proof fn law_a_fresh_sequence_is_empty(s: AttnState, q: int)
    requires
        s.is_fresh(),
    ensures
        s.length() == 0,
        !s.k.held().dom().contains(q),
        !s.v.held().dom().contains(q),
        s.k_sconv.history().length() == 0,
        s.v_sconv.history().length() == 0,
        !s.k_sconv.history().held().dom().contains(q),
        !s.v_sconv.history().held().dom().contains(q),
{
}

/// Tables count with every value, wherever they are; they are released where neither a
/// mapping nor a query table is left.
pub proof fn law_values_of_the_tables(p: Projections)
    ensures
        p.mapped is None ==> p.values() == p.owned.wq + p.owned.wk + p.owned.wv + p.owned.wr
            + p.owned.wo,
        p.mapped matches Some(m) ==> p.values() == p.owned.wq + p.owned.wk + p.owned.wv
            + p.owned.wr + p.owned.wo + m.wq + m.wk + m.wv + m.wr + m.wo,
        p.released() ==> p.mapped is None && p.owned.wq == 0,
        p.mapped is Some || p.owned.wq > 0 ==> !p.released(),
{
}

/// A snapshot holds what the caches and the two histories hold, and restoring it brings
/// that back as far as there are rows.
pub proof fn law_a_snapshot_brings_back_the_sequence(
    saved: AttnState,
    before: AttnState,
    after: AttnState,
    kv: AttnKv,
    q: int,
)
    requires
        state_saved(kv, saved),
        state_restored(before, after, kv),
        before.same_layer(saved),
        0 <= q,
    ensures
        after.length() == saved.length(),
        after.k_sconv.history().length() == saved.k_sconv.history().length(),
        after.v_sconv.history().length() == saved.v_sconv.history().length(),
        saved.k.held().dom().contains(q) && saved.length() - q <= saved.k.rows()
            ==> after.k.held().dom().contains(q) && after.k.held()[q] == saved.k.held()[q],
        saved.v.held().dom().contains(q) && saved.v.length() - q <= saved.v.rows()
            ==> after.v.held().dom().contains(q) && after.v.held()[q] == saved.v.held()[q],
        saved.k_sconv.history().held().dom().contains(q) && saved.k_sconv.history().length() - q
            <= saved.k_sconv.history().rows() ==> after.k_sconv.history().held()[q]
            == saved.k_sconv.history().held()[q],
        saved.v_sconv.history().held().dom().contains(q) && saved.v_sconv.history().length() - q
            <= saved.v_sconv.history().rows() ==> after.v_sconv.history().held()[q]
            == saved.v_sconv.history().held()[q],
        after.k_sconv.w@ == before.k_sconv.w@,
        after.v_sconv.w@ == before.v_sconv.w@,
{
    conv::law_a_restored_convolution_reads_the_saved_inputs(
        before.k_sconv,
        after.k_sconv,
        kv.k_conv,
        q,
    );
    conv::law_a_restored_convolution_reads_the_saved_inputs(
        before.v_sconv,
        after.v_sconv,
        kv.v_conv,
        q,
    );
}

/// Two layers park the same sequences where their shapes, their slots and their live slot
/// agree.
pub proof fn law_layers_that_park_the_same(a: AttentionLayer, b: AttentionLayer)
    ensures
        a.same_pool(b) <==> a.dims == b.dims && a.live == b.live && a.slots == b.slots,
        a.same_parked(b) ==> a.same_pool(b) && a.state.k_sconv.w@ == b.state.k_sconv.w@
            && a.state.v_sconv.w@ == b.state.v_sconv.w@ && a.state.k.rows() == b.state.k.rows()
            && a.state.v.rows() == b.state.v.rows(),
{
}

} // verus!
