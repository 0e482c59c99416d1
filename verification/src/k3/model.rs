//! The layer stack: states per layer and the residual blocks that travel with a token.
//!
//! A layer takes a pair, the running prefix sum and the stack of block residuals. Every
//! `block_size` layers the prefix sum is pushed as a new block and starts over. How many
//! blocks are live follows from the layer index alone, so it is never sent.
//!
//! Numbers are single-precision bits; sums, norms and products are the caller's.
use vstd::prelude::*;

use crate::arith::{self, div_up};
use crate::inkling::ffn;
use crate::k3::attn::MlaKv;

verus! {

/// Blocks that are live on entry to a layer.
pub fn blocks_at(layer: usize, block_size: usize) -> (n: usize)
    requires
        block_size > 0,
    ensures
        n == arith::ceil_div(layer as int, block_size as int),
{
    div_up(layer, block_size)
}

/// Blocks that the wire must carry for a model of `n` layers.
pub fn max_blocks(n: usize, block_size: usize) -> (b: usize)
    requires
        block_size > 0,
    ensures
        b == arith::ceil_div(n as int, block_size as int),
{
    div_up(n, block_size)
}

/// One layer on, there is one more live block exactly where the layer is a boundary.
pub proof fn law_a_boundary_adds_a_block(layer: int, block_size: int)
    requires
        layer >= 0,
        block_size > 0,
    ensures
        arith::ceil_div(layer + 1, block_size) == arith::ceil_div(layer, block_size) + if layer
            % block_size == 0 {
            1int
        } else {
            0int
        },
{
    let q = layer / block_size;
    let r = layer % block_size;
    vstd::arithmetic::div_mod::lemma_fundamental_div_mod(layer, block_size);
    assert(layer == q * block_size + r) by (nonlinear_arith)
        requires
            layer == block_size * q + r,
    ;
    assert((q + 1) * block_size == q * block_size + block_size) by (nonlinear_arith);
    vstd::arithmetic::div_mod::lemma_fundamental_div_mod_converse(
        layer + block_size,
        block_size,
        q + 1,
        r,
    );
    if r == 0 {
        vstd::arithmetic::div_mod::lemma_fundamental_div_mod_converse(
            layer + block_size - 1,
            block_size,
            q,
            block_size - 1,
        );
    } else {
        vstd::arithmetic::div_mod::lemma_fundamental_div_mod_converse(
            layer + block_size - 1,
            block_size,
            q + 1,
            r - 1,
        );
    }
}

/// A boundary inside the model always finds a free block slot on the wire.
pub proof fn law_a_boundary_finds_a_slot(layer: int, n: int, block_size: int)
    requires
        0 <= layer < n,
        block_size > 0,
        layer % block_size == 0,
    ensures
        arith::ceil_div(layer, block_size) < arith::ceil_div(n, block_size),
{
    law_a_boundary_adds_a_block(layer, block_size);
    vstd::arithmetic::div_mod::lemma_div_is_ordered(
        layer + 1 + block_size - 1,
        n + block_size - 1,
        block_size,
    );
}

/// Boundaries among the layers `lo..hi`.
pub open spec fn boundaries(lo: int, hi: int, block_size: int) -> int
    decreases hi - lo,
{
    if hi <= lo {
        0
    } else {
        boundaries(lo, hi - 1, block_size) + if (hi - 1) % block_size == 0 {
            1int
        } else {
            0int
        }
    }
}

/// A rank that starts with the blocks of its first layer ends with those of the next
/// rank's first layer.
pub proof fn law_a_slice_hands_on_its_blocks(lo: int, hi: int, block_size: int)
    requires
        0 <= lo <= hi,
        block_size > 0,
    ensures
        arith::ceil_div(lo, block_size) + boundaries(lo, hi, block_size) == arith::ceil_div(
            hi,
            block_size,
        ),
    decreases hi - lo,
{
    if lo < hi {
        law_a_slice_hands_on_its_blocks(lo, hi - 1, block_size);
        law_a_boundary_adds_a_block(hi - 1, block_size);
    }
}

// ----------------------------------------------------------------------- states

/// The shape of a linear-attention layer. Real numbers are single-precision bits.
#[derive(Clone, Copy)]
pub struct KdaDims {
    pub hidden: usize,
    pub heads: usize,
    pub head_dim: usize,
    pub conv_size: usize,
    pub gate_lower_bound: Option<u32>,
    pub eps: u32,
}

/// What a linear-attention layer carries: the recurrence and three windows. Its size
/// does not grow with the position.
pub struct KdaState {
    pub recurrent: Vec<u32>,
    pub conv_q: Vec<u32>,
    pub conv_k: Vec<u32>,
    pub conv_v: Vec<u32>,
}

fn zeros(n: usize) -> (v: Vec<u32>)
    ensures
        v@ == zeroed(n as nat),
{
    let mut v: Vec<u32> = Vec::new();
    let mut i: usize = 0;
    while i < n
        invariant
            i <= n,
            v@ =~= zeroed(i as nat),
        decreases n - i,
    {
        v.push(0);
        i += 1;
    }
    v
}

/// `n` zeros.
pub open spec fn zeroed(n: nat) -> Seq<u32> {
    Seq::new(n, |i: int| 0u32)
}

/// Numbers in one window.
pub open spec fn window_len(d: KdaDims) -> int {
    d.heads * d.head_dim * (d.conv_size - 1)
}

/// Numbers in the recurrence.
pub open spec fn recurrent_len(d: KdaDims) -> int {
    d.heads * d.head_dim * d.head_dim
}

impl KdaState {
    /// The state before the first token.
    pub fn new(d: KdaDims) -> (s: KdaState)
        requires
            d.conv_size > 0,
            d.heads * d.head_dim <= usize::MAX,
            window_len(d) <= usize::MAX,
            recurrent_len(d) <= usize::MAX,
        ensures
            s.recurrent@ == zeroed(recurrent_len(d) as nat),
            s.conv_q@ == zeroed(window_len(d) as nat),
            s.conv_k@ == zeroed(window_len(d) as nat),
            s.conv_v@ == zeroed(window_len(d) as nat),
    {
        proof {
            assert(0 <= d.heads * d.head_dim) by (nonlinear_arith);
            assert(0 <= (d.heads * d.head_dim) * (d.conv_size - 1)) by (nonlinear_arith)
                requires
                    0 <= d.heads * d.head_dim,
                    d.conv_size >= 1,
            ;
            assert(0 <= (d.heads * d.head_dim) * d.head_dim) by (nonlinear_arith)
                requires
                    0 <= d.heads * d.head_dim,
            ;
        }
        let proj: usize = d.heads * d.head_dim;
        let w: usize = proj * (d.conv_size - 1);
        KdaState {
            recurrent: zeros(proj * d.head_dim),
            conv_q: zeros(w),
            conv_k: zeros(w),
            conv_v: zeros(w),
        }
    }

    /// Back to the state before the first token.
    pub fn clear(&mut self)
        ensures
            final(self).recurrent@ == zeroed(old(self).recurrent@.len()),
            final(self).conv_q@ == zeroed(old(self).conv_q@.len()),
            final(self).conv_k@ == zeroed(old(self).conv_k@.len()),
            final(self).conv_v@ == zeroed(old(self).conv_v@.len()),
    {
        self.recurrent = zeros(self.recurrent.len());
        self.conv_q = zeros(self.conv_q.len());
        self.conv_k = zeros(self.conv_k.len());
        self.conv_v = zeros(self.conv_v.len());
    }

    /// A copy.
    pub fn copied(&self) -> (s: KdaState)
        ensures
            s.recurrent@ == self.recurrent@,
            s.conv_q@ == self.conv_q@,
            s.conv_k@ == self.conv_k@,
            s.conv_v@ == self.conv_v@,
    {
        KdaState {
            recurrent: self.recurrent.clone(),
            conv_q: self.conv_q.clone(),
            conv_k: self.conv_k.clone(),
            conv_v: self.conv_v.clone(),
        }
    }
}

/// What one layer carries from token to token.
pub enum LayerState {
    Kda(KdaState),
    Mla(MlaKv),
}

/// The numbers of a state.
pub open spec fn state_view(s: LayerState) -> (bool, nat, Seq<u32>, Seq<u32>, Seq<u32>, Seq<u32>) {
    match s {
        LayerState::Kda(k) => (true, 0, k.recurrent@, k.conv_q@, k.conv_k@, k.conv_v@),
        LayerState::Mla(m) => (
            false,
            m.len as nat,
            m.latent@,
            Seq::empty(),
            Seq::empty(),
            Seq::empty(),
        ),
    }
}

/// Bytes of a state.
pub open spec fn state_bytes(s: LayerState) -> nat {
    4 * match s {
        LayerState::Kda(k) => k.recurrent@.len() + k.conv_q@.len() + k.conv_k@.len()
            + k.conv_v@.len(),
        LayerState::Mla(m) => m.latent@.len(),
    }
}

impl LayerState {
    /// Back to the state before the first token.
    pub fn clear(&mut self)
        ensures
            match *old(self) {
                LayerState::Kda(k) => state_view(*final(self)) == (
                    true,
                    0nat,
                    zeroed(k.recurrent@.len()),
                    zeroed(k.conv_q@.len()),
                    zeroed(k.conv_k@.len()),
                    zeroed(k.conv_v@.len()),
                ),
                LayerState::Mla(_) => state_view(*final(self)) == (
                    false,
                    0nat,
                    Seq::<u32>::empty(),
                    Seq::<u32>::empty(),
                    Seq::<u32>::empty(),
                    Seq::<u32>::empty(),
                ),
            },
    {
        match self {
            LayerState::Kda(s) => s.clear(),
            LayerState::Mla(kv) => kv.clear(),
        }
    }

    /// Bytes that a copy of the state takes.
    pub fn approx_bytes(&self) -> (n: usize)
        requires
            state_bytes(*self) <= usize::MAX,
        ensures
            n == state_bytes(*self),
    {
        match self {
            LayerState::Kda(s) => (s.recurrent.len() + s.conv_q.len() + s.conv_k.len()
                + s.conv_v.len()) * 4,
            LayerState::Mla(kv) => kv.latent.len() * 4,
        }
    }

    /// A copy.
    pub fn copied(&self) -> (s: LayerState)
        ensures
            state_view(s) == state_view(*self),
    {
        match self {
            LayerState::Kda(k) => LayerState::Kda(k.copied()),
            LayerState::Mla(m) => LayerState::Mla(m.copied()),
        }
    }
}

/// Two states with the same numbers take the same bytes.
pub proof fn lemma_same_bytes(a: LayerState, b: LayerState)
    requires
        state_view(a) == state_view(b),
    ensures
        state_bytes(a) == state_bytes(b),
{
}

/// The shape of the model as the layer loop needs it. Real numbers are single-precision
/// bits.
#[derive(Clone, Copy)]
pub struct K3Dims {
    pub hidden: usize,
    pub num_layers: usize,
    pub block_size: usize,
    pub eps: u32,
    pub situ_beta: u32,
    pub situ_linear_beta: Option<u32>,
}

// --------------------------------------------------------------- residual blocks

/// A stack of blocks with `p` written into slot `nb`.
pub open spec fn pushed(b: Seq<u32>, p: Seq<u32>, nb: int, h: int) -> Seq<u32> {
    b.take(nb * h) + p + b.skip((nb + 1) * h)
}

/// Row `r`'s blocks.
pub open spec fn plane(blocks: Seq<u32>, r: int, width: int) -> Seq<u32> {
    ffn::row_of(blocks, width, r)
}

/// The pair that a token takes through the layers.
pub struct Residual {
    pub prefix: Vec<u32>,
    pub blocks: Vec<u32>,
    /// Live blocks.
    pub nb: usize,
}

impl Residual {
    /// `h` numbers in the prefix and room for `maxb` blocks.
    pub open spec fn wf(&self, h: int, maxb: int) -> bool {
        &&& self.prefix.len() == h
        &&& self.blocks.len() == maxb * h
        &&& self.nb <= maxb
    }

    /// Before the attention the prefix is mixed with the blocks, unless there are none.
    pub fn mixes(&self) -> (b: bool)
        ensures
            b == (self.nb > 0),
    {
        self.nb > 0
    }

    /// The live blocks.
    pub fn live(&self, h: usize, maxb: usize) -> (r: &[u32])
        requires
            self.wf(h as int, maxb as int),
        ensures
            r@ == self.blocks@.take(self.nb * h),
    {
        proof {
            assert(0 <= self.nb * h && self.nb * h <= maxb * h) by (nonlinear_arith)
                requires
                    self.nb <= maxb,
            ;
            assert(self.blocks@.take(self.nb * h) =~= self.blocks@.subrange(0, self.nb * h));
        }
        vstd::slice::slice_subrange(self.blocks.as_slice(), 0, self.nb * h)
    }

    /// Enters a layer: at a boundary the prefix becomes a block, and the attention's
    /// output will replace it; elsewhere the output is added to it. `true` means added.
    pub fn enter(&mut self, layer: usize, block_size: usize, h: usize, maxb: usize) -> (carry: bool)
        requires
            block_size > 0,
            old(self).wf(h as int, maxb as int),
            layer % block_size == 0 ==> old(self).nb < maxb,
        ensures
            final(self).wf(h as int, maxb as int),
            carry == (layer % block_size != 0),
            final(self).prefix@ == old(self).prefix@,
            carry ==> final(self).blocks@ == old(self).blocks@ && final(self).nb == old(self).nb,
            !carry ==> final(self).blocks@ == pushed(
                old(self).blocks@,
                old(self).prefix@,
                old(self).nb as int,
                h as int,
            ) && final(self).nb == old(self).nb + 1,
    {
        if layer % block_size == 0 {
            proof {
                assert(0 <= self.nb * h && (self.nb + 1) * h == self.nb * h + h && (self.nb + 1) * h
                    <= maxb * h) by (nonlinear_arith)
                    requires
                        self.nb + 1 <= maxb,
                ;
            }
            let at: usize = self.nb * h;
            write_at(&mut self.blocks, at, self.prefix.as_slice());
            self.nb = self.nb + 1;
            false
        } else {
            true
        }
    }

    /// Takes the attention's output: the sums where it is carried, else the output.
    pub fn attention_done(&mut self, carry: bool, out: Vec<u32>, sums: Vec<u32>)
        ensures
            final(self).prefix@ == (if carry {
                sums@
            } else {
                out@
            }),
            final(self).blocks == old(self).blocks,
            final(self).nb == old(self).nb,
    {
        if carry {
            self.prefix = sums;
        } else {
            self.prefix = out;
        }
    }

    /// Takes the sums with the feed-forward output.
    pub fn ffn_done(&mut self, sums: Vec<u32>)
        ensures
            final(self).prefix@ == sums@,
            final(self).blocks == old(self).blocks,
            final(self).nb == old(self).nb,
    {
        self.prefix = sums;
    }
}

/// Writes `src` into `v` at `at`.
pub fn write_at(v: &mut Vec<u32>, at: usize, src: &[u32])
    requires
        at + src.len() <= old(v).len(),
    ensures
        final(v)@ == old(v)@.take(at as int) + src@ + old(v)@.skip(at + src.len()),
{
    let ghost before = v@;
    let mut i: usize = 0;
    while i < src.len()
        invariant
            i <= src.len(),
            v.len() == before.len(),
            at + src.len() <= v.len(),
            v@ =~= before.take(at as int) + src@.take(i as int) + before.skip(at + i),
        decreases src.len() - i,
    {
        v.set(at + i, src[i]);
        i += 1;
    }
    proof {
        assert(src@.take(i as int) =~= src@);
    }
}

/// Enters a layer with a batch: every row's prefix becomes a block of that row. The rows
/// do exactly what each would do alone.
pub fn enter_rows(
    prefix: &[u32],
    blocks: &mut Vec<u32>,
    rows: usize,
    h: usize,
    maxb: usize,
    nb: usize,
    layer: usize,
    block_size: usize,
) -> (r: (bool, usize))
    requires
        block_size > 0,
        prefix.len() == rows * h,
        maxb * h <= usize::MAX,
        old(blocks).len() == rows * (maxb * h),
        nb <= maxb,
        layer % block_size == 0 ==> nb < maxb,
    ensures
        r.0 == (layer % block_size != 0),
        r.0 ==> r.1 == nb && final(blocks)@ == old(blocks)@,
        !r.0 ==> r.1 == nb + 1 && final(blocks).len() == old(blocks).len() && forall|i: int|
            0 <= i < rows ==> #[trigger] plane(final(blocks)@, i, maxb * h) == pushed(
                plane(old(blocks)@, i, maxb * h),
                ffn::row_of(prefix@, h as int, i),
                nb as int,
                h as int,
            ),
{
    if layer % block_size != 0 {
        return (true, nb);
    }
    let ghost first = blocks@;
    let ghost w = maxb * h;
    let mut i: usize = 0;
    while i < rows
        invariant
            i <= rows,
            w == maxb * h,
            maxb * h <= usize::MAX,
            nb < maxb,
            prefix.len() == rows * h,
            first.len() == rows * w,
            blocks.len() == first.len(),
            forall|j: int|
                i <= j < rows ==> #[trigger] plane(blocks@, j, w) == plane(first, j, w),
            forall|j: int|
                0 <= j < i ==> #[trigger] plane(blocks@, j, w) == pushed(
                    plane(first, j, w),
                    ffn::row_of(prefix@, h as int, j),
                    nb as int,
                    h as int,
                ),
        decreases rows - i,
    {
        proof {
            assert(0 <= i * h && (i + 1) * h == i * h + h && (i + 1) * h <= rows * h && 0 <= i * w
                && (i + 1) * w == i * w + w && (i + 1) * w <= rows * w && 0 <= nb * h && (nb + 1)
                * h == nb * h + h && (nb + 1) * h <= maxb * h) by (nonlinear_arith)
                requires
                    0 <= i < rows,
                    0 <= nb < maxb,
                    w == maxb * h,
                    0 <= h,
            ;
        }
        let row: &[u32] = vstd::slice::slice_subrange(prefix, i * h, i * h + h);
        let at: usize = i * (maxb * h) + nb * h;
        let ghost before = blocks@;
        write_at(blocks, at, row);
        proof {
            let p = row@;
            assert(ffn::row_of(prefix@, h as int, i as int) =~= p);
            assert forall|j: int| 0 <= j < rows implies #[trigger] plane(blocks@, j, w) == (if j
                == i {
                pushed(plane(before, j, w), p, nb as int, h as int)
            } else {
                plane(before, j, w)
            }) by {
                assert(0 <= j * w && (j + 1) * w == j * w + w && (j + 1) * w <= rows * w)
                    by (nonlinear_arith)
                    requires
                        0 <= j < rows,
                        0 <= w,
                ;
                if j < i {
                    assert((j + 1) * w <= i * w) by (nonlinear_arith)
                        requires
                            j + 1 <= i,
                            0 <= w,
                    ;
                    assert(plane(blocks@, j, w) =~= plane(before, j, w));
                } else if j > i {
                    assert((i + 1) * w <= j * w) by (nonlinear_arith)
                        requires
                            i + 1 <= j,
                            0 <= w,
                    ;
                    assert(plane(blocks@, j, w) =~= plane(before, j, w));
                } else {
                    assert(plane(blocks@, j, w) =~= pushed(
                        plane(before, j, w),
                        p,
                        nb as int,
                        h as int,
                    ));
                }
            }
        }
        i += 1;
    }
    (false, nb + 1)
}

/// Pushing keeps the blocks that are already live, and the new one is the prefix.
pub proof fn law_pushing_keeps_the_blocks(b: Seq<u32>, p: Seq<u32>, nb: int, h: int, i: int)
    requires
        0 <= i <= nb,
        p.len() == h,
        (nb + 1) * h <= b.len(),
    ensures
        i < nb ==> ffn::row_of(pushed(b, p, nb, h), h, i) == ffn::row_of(b, h, i),
        i == nb ==> ffn::row_of(pushed(b, p, nb, h), h, i) == p,
        pushed(b, p, nb, h).len() == b.len(),
{
    assert(0 <= i * h && (i + 1) * h == i * h + h && i * h <= nb * h && (nb + 1) * h == nb * h + h
        && (i < nb ==> (i + 1) * h <= nb * h)) by (nonlinear_arith)
        requires
            0 <= i <= nb,
            0 <= h,
    ;
    if i < nb {
        assert(ffn::row_of(pushed(b, p, nb, h), h, i) =~= ffn::row_of(b, h, i));
    } else {
        assert(ffn::row_of(pushed(b, p, nb, h), h, i) =~= p);
    }
}

/// The sizes of a recurrent layer's state: each of the three windows keeps the last
/// inputs of every channel but one of the kernel's width, and the recurrence keeps a
/// square of the head width for each head. Each value takes four bytes.
pub proof fn law_state_sizes(d: KdaDims)
    ensures
        window_len(d) == (d.conv_size - 1) * (d.heads * d.head_dim),
        recurrent_len(d) == d.heads * (d.head_dim * d.head_dim),
{
    assert(d.heads * d.head_dim * (d.conv_size - 1) == (d.conv_size - 1) * (d.heads * d.head_dim)
        && d.heads * d.head_dim * d.head_dim == d.heads * (d.head_dim * d.head_dim))
        by (nonlinear_arith);
}

/// A state takes four bytes for each value that it holds.
pub proof fn law_bytes_of_a_state(s: LayerState)
    ensures
        s matches LayerState::Kda(k) ==> state_bytes(s) == 4 * k.recurrent@.len() + 4
            * k.conv_q@.len() + 4 * k.conv_k@.len() + 4 * k.conv_v@.len(),
        s matches LayerState::Mla(m) ==> state_bytes(s) == 4 * m.latent@.len(),
{
}

/// A new block takes the place behind the live ones, and every other block stays.
pub proof fn law_a_new_block_takes_its_place(
    b: Seq<u32>,
    p: Seq<u32>,
    nb: int,
    h: int,
    i: int,
)
    requires
        0 <= nb,
        0 <= h,
        p.len() == h,
        (nb + 1) * h <= b.len(),
        0 <= i < b.len(),
    ensures
        pushed(b, p, nb, h).len() == b.len(),
        nb * h <= i < nb * h + h ==> pushed(b, p, nb, h)[i] == p[i - nb * h],
        !(nb * h <= i < nb * h + h) ==> pushed(b, p, nb, h)[i] == b[i],
{
    assert((nb + 1) * h == nb * h + h && nb * h >= 0) by (nonlinear_arith)
        requires
            0 <= nb,
            0 <= h,
    ;
}

} // verus!
