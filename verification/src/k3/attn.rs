//! The latent cache of the full-attention layers, and which weight rows a head reads.
use vstd::prelude::*;

use crate::inkling::ffn;

verus! {

/// The shape of one full-attention layer. The norm's epsilon is single-precision bits.
#[derive(Clone, Copy)]
pub struct MlaDims {
    pub hidden: usize,
    pub heads: usize,
    pub q_lora_rank: usize,
    pub kv_lora_rank: usize,
    pub qk_nope: usize,
    pub qk_rope: usize,
    pub v_head: usize,
    pub eps: u32,
}

impl MlaDims {
    /// Width of one head's query.
    pub fn qk_head(&self) -> (n: usize)
        requires
            self.qk_nope + self.qk_rope <= usize::MAX,
        ensures
            n == self.qk_nope + self.qk_rope,
    {
        self.qk_nope + self.qk_rope
    }

    /// Numbers cached per token: the latent and the slice that all heads share.
    pub fn latent_per_token(&self) -> (n: usize)
        requires
            self.kv_lora_rank + self.qk_rope <= usize::MAX,
        ensures
            n == self.kv_lora_rank + self.qk_rope,
    {
        self.kv_lora_rank + self.qk_rope
    }

    /// The row of the up-projection that expands number `i` of a head's keys.
    pub fn key_row(&self, head: usize, i: usize) -> (r: usize)
        requires
            head < self.heads,
            i < self.qk_nope,
            self.heads * (self.qk_nope + self.v_head) <= usize::MAX,
        ensures
            r == key_row_of(*self, head as int, i as int),
            r < self.heads * (self.qk_nope + self.v_head),
    {
        proof {
            lemma_head_rows(*self, head as int);
        }
        head * (self.qk_nope + self.v_head) + i
    }

    /// The row of the up-projection that expands number `i` of a head's values.
    pub fn value_row(&self, head: usize, i: usize) -> (r: usize)
        requires
            head < self.heads,
            i < self.v_head,
            self.heads * (self.qk_nope + self.v_head) <= usize::MAX,
        ensures
            r == value_row_of(*self, head as int, i as int),
            r < self.heads * (self.qk_nope + self.v_head),
    {
        proof {
            lemma_head_rows(*self, head as int);
        }
        head * (self.qk_nope + self.v_head) + self.qk_nope + i
    }
}

/// Keys come first in a head's rows.
pub open spec fn key_row_of(d: MlaDims, head: int, i: int) -> int {
    head * (d.qk_nope + d.v_head) + i
}

/// Values follow them.
pub open spec fn value_row_of(d: MlaDims, head: int, i: int) -> int {
    head * (d.qk_nope + d.v_head) + d.qk_nope + i
}

proof fn lemma_head_rows(d: MlaDims, head: int)
    requires
        0 <= head < d.heads,
    ensures
        0 <= head * (d.qk_nope + d.v_head),
        head * (d.qk_nope + d.v_head) + d.qk_nope + d.v_head <= d.heads * (d.qk_nope + d.v_head),
        d.qk_nope + d.v_head <= d.heads * (d.qk_nope + d.v_head),
{
    let w = d.qk_nope + d.v_head;
    assert(0 <= head * w && head * w + w <= d.heads * w && w <= d.heads * w) by (nonlinear_arith)
        requires
            0 <= head < d.heads,
            0 <= w,
    ;
}

/// A growing cache: one row of latent and shared slice per token, as single-precision
/// bits. The latent is kept normalised, so that the norm is paid once per token.
pub struct MlaKv {
    pub latent: Vec<u32>,
    pub len: usize,
}

impl MlaKv {
    /// Rows of `width` numbers.
    pub open spec fn wf(&self, width: int) -> bool {
        self.latent.len() == self.len * width
    }

    /// An empty cache.
    pub fn new() -> (kv: MlaKv)
        ensures
            kv.latent@ == Seq::<u32>::empty(),
            kv.len == 0,
            forall|w: int| #[trigger] kv.wf(w),
    {
        MlaKv { latent: Vec::new(), len: 0 }
    }

    /// Forgets every token.
    pub fn clear(&mut self)
        ensures
            final(self).latent@ == Seq::<u32>::empty(),
            final(self).len == 0,
            forall|w: int| #[trigger] final(self).wf(w),
    {
        self.latent.clear();
        self.len = 0;
    }

    /// Tokens in the cache.
    pub fn len(&self) -> (n: usize)
        ensures
            n == self.len,
    {
        self.len
    }

    /// The cache holds no token.
    pub fn is_empty(&self) -> (b: bool)
        ensures
            b == (self.len == 0),
    {
        self.len == 0
    }

    /// Adds one token's row.
    pub fn append(&mut self, row: &[u32])
        requires
            old(self).wf(row.len() as int),
            old(self).len < usize::MAX,
        ensures
            final(self).wf(row.len() as int),
            final(self).len == old(self).len + 1,
            final(self).latent@ == old(self).latent@ + row@,
    {
        let ghost before = self.latent@;
        let ghost n = self.len as int;
        let mut i: usize = 0;
        while i < row.len()
            invariant
                i <= row.len(),
                self.len == n,
                self.latent@ =~= before + row@.take(i as int),
            decreases row.len() - i,
        {
            self.latent.push(row[i]);
            i += 1;
        }
        proof {
            assert(row@.take(i as int) =~= row@);
            assert((n + 1) * row.len() == n * row.len() + row.len()) by (nonlinear_arith);
        }
        self.len = self.len + 1;
    }

    /// The row of token `t`: latent and shared slice.
    pub fn row(&self, t: usize, width: usize) -> (r: &[u32])
        requires
            self.wf(width as int),
            t < self.len,
        ensures
            r@ == ffn::row_of(self.latent@, width as int, t as int),
    {
        proof {
            let n = self.len as int;
            assert(0 <= t * width && (t + 1) * width == t * width + width && (t + 1) * width <= n
                * width) by (nonlinear_arith)
                requires
                    0 <= t < n,
                    0 <= width,
            ;
        }
        let start: usize = t * width;
        vstd::slice::slice_subrange(self.latent.as_slice(), start, start + width)
    }

    /// A copy.
    pub fn copied(&self) -> (c: MlaKv)
        ensures
            c.latent@ == self.latent@,
            c.len == self.len,
    {
        MlaKv { latent: self.latent.clone(), len: self.len }
    }
}

/// A row that was appended is read back, and appending changes no earlier row.
pub proof fn law_appended_rows_stay(before: MlaKv, after: MlaKv, row: Seq<u32>, t: int)
    requires
        before.wf(row.len() as int),
        after.latent@ == before.latent@ + row,
        after.len == before.len + 1,
        0 <= t <= before.len,
    ensures
        t < before.len ==> ffn::row_of(after.latent@, row.len() as int, t) == ffn::row_of(
            before.latent@,
            row.len() as int,
            t,
        ),
        t == before.len ==> ffn::row_of(after.latent@, row.len() as int, t) == row,
{
    let w = row.len() as int;
    let n = before.len as int;
    assert(0 <= t * w && (t + 1) * w == t * w + w && (t < n ==> (t + 1) * w <= n * w))
        by (nonlinear_arith)
        requires
            0 <= t <= n,
            0 <= w,
    ;
    if t < n {
        assert(ffn::row_of(after.latent@, w, t) =~= ffn::row_of(before.latent@, w, t));
    } else {
        assert(ffn::row_of(after.latent@, w, t) =~= row);
    }
}

/// No two weight rows of the heads coincide, so each row belongs to one head's keys or
/// to one head's values.
pub proof fn law_head_rows_are_apart(d: MlaDims, a: int, b: int, i: int, j: int)
    requires
        0 <= a < b < d.heads,
        0 <= i < d.qk_nope + d.v_head,
        0 <= j < d.qk_nope + d.v_head,
    ensures
        key_row_of(d, a, i) < key_row_of(d, b, j),
        i < d.v_head ==> value_row_of(d, a, i) < key_row_of(d, b, j),
{
    let w = d.qk_nope + d.v_head;
    assert(a * w + w <= b * w) by (nonlinear_arith)
        requires
            a + 1 <= b,
            0 <= w,
    ;
}

/// Each head has its key rows first and its value rows right behind them, and the next
/// head follows.
pub proof fn law_key_rows_come_before_value_rows(d: MlaDims, head: int, i: int)
    ensures
        key_row_of(d, 0, 0) == 0,
        key_row_of(d, head, i + 1) == key_row_of(d, head, i) + 1,
        value_row_of(d, head, i + 1) == value_row_of(d, head, i) + 1,
        value_row_of(d, head, 0) == key_row_of(d, head, d.qk_nope as int),
        key_row_of(d, head + 1, 0) == value_row_of(d, head, d.v_head as int),
{
    let w = d.qk_nope + d.v_head;
    assert((head + 1) * w == head * w + w && 0 * w == 0) by (nonlinear_arith);
}

} // verus!
