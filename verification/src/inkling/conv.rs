//! Causal depthwise short convolution: which past inputs each position reads.
//!
//! With kernel width `K`, tap `K - 1` multiplies the current input and tap `0`
//! the oldest; taps that reach before the first position read nothing. The last
//! `K - 1` inputs live in a [`Ring`] with extra rows for rollbacks. A prefill
//! reads exactly what the same number of single steps would read.
use vstd::prelude::*;

use crate::inkling::ring::{self, Ring, RingState, DEFAULT_REWIND};

verus! {

/// Row `i` of a row-major matrix of `c` columns.
pub open spec fn matrix_row(u: Seq<u32>, i: int, c: int) -> Seq<u32> {
    u.subrange(i * c, (i + 1) * c)
}

/// The input that position `p0 + i` reads `back` positions ago, where positions
/// from `p0` on are the rows of `us` and earlier ones are in `held`.
pub open spec fn tap_input(
    held: Map<int, Seq<u32>>,
    p0: int,
    us: Seq<Seq<u32>>,
    i: int,
    back: int,
) -> Option<Seq<u32>> {
    let q = p0 + i - back;
    if q < 0 {
        None
    } else if q >= p0 {
        Some(us[q - p0])
    } else {
        Some(held[q])
    }
}

/// `tap` carries this input, or nothing where there is none.
pub open spec fn tap_is(tap: Option<Vec<u32>>, input: Option<Seq<u32>>) -> bool {
    match input {
        None => tap is None,
        Some(s) => tap is Some && tap->0@ == s,
    }
}

/// The taps of the `i`-th row fed in, oldest first.
pub open spec fn taps_for(
    taps: Seq<Option<Vec<u32>>>,
    held: Map<int, Seq<u32>>,
    p0: int,
    us: Seq<Seq<u32>>,
    i: int,
    k: int,
) -> bool {
    &&& taps.len() == k
    &&& forall|j: int|
        0 <= j < k ==> tap_is(#[trigger] taps[j], tap_input(held, p0, us, i, k - 1 - j))
}

/// `after` is `before` rolled back to `len` positions.
pub open spec fn conv_truncated(before: ShortConv, after: ShortConv, len: nat) -> bool {
    &&& after.wf()
    &&& after.same_kernel(before)
    &&& after.history().length() == len
    &&& after.history().mark() == before.history().mark()
    &&& after.history().held() =~= before.history().held().restrict(Set::new(|q: int| q < len))
}

/// `conv` has consumed nothing.
pub open spec fn conv_fresh(conv: ShortConv) -> bool {
    &&& conv.history().length() == 0
    &&& conv.history().mark() == 0
    &&& conv.history().held() =~= Map::empty()
}

/// `after` is `before` with its history replaced by the saved one.
pub open spec fn conv_restored(before: ShortConv, after: ShortConv, s: RingState) -> bool {
    &&& after.wf()
    &&& after.same_kernel(before)
    &&& ring::restored_from(before.history(), after.history(), s)
}

/// `s` can be restored into `conv`.
pub open spec fn conv_fits(s: RingState, conv: ShortConv) -> bool {
    &&& s.wf(conv.c as nat)
    &&& s.supports((conv.k - 1) as nat)
    &&& s.length() + conv.history().rows() <= usize::MAX
}

/// `s` is the saved history of `conv`.
pub open spec fn conv_saved(s: RingState, conv: ShortConv) -> bool {
    &&& s.wf(conv.c as nat)
    &&& s.supports((conv.k - 1) as nat)
    &&& ring::saved_of(s, conv.history())
}

/// One depthwise causal convolution with its input history. The kernel `w` is
/// `[c, k]`, row by row, as the bits of its numbers.
pub struct ShortConv {
    pub w: Vec<u32>,
    pub c: usize,
    pub k: usize,
    pub ring: Ring,
}

impl ShortConv {
    pub open spec fn history(self) -> Ring {
        self.ring
    }

    pub open spec fn wf(self) -> bool {
        &&& self.c >= 1
        &&& self.k >= 1
        &&& self.w.len() == self.c * self.k
        &&& self.ring.wf()
        &&& self.ring.row_width() == self.c
        &&& self.ring.lookback() == self.k - 1
        &&& !self.ring.is_bounded()
    }

    /// The same kernel.
    pub open spec fn same_kernel(self, other: ShortConv) -> bool {
        &&& self.w@ == other.w@
        &&& self.c == other.c
        &&& self.k == other.k
        &&& self.history().same_shape(other.history())
    }

    /// A convolution with the default rollback slack.
    pub fn new(w: Vec<u32>, c: usize, k: usize) -> (conv: Self)
        requires
            c >= 1,
            k >= 1,
            w.len() == c * k,
            k - 1 + DEFAULT_REWIND <= usize::MAX,
        ensures
            conv.wf(),
            conv.w == w,
            conv.c == c,
            conv.k == k,
            conv.history().slack() == DEFAULT_REWIND,
            conv.history().rows() == k - 1 + DEFAULT_REWIND,
            conv.history().slack() == 32,
            conv_fresh(conv),
    {
        ShortConv::with_rewind(w, c, k, DEFAULT_REWIND)
    }

    /// A convolution whose history may roll back `rewind` positions.
    pub fn with_rewind(w: Vec<u32>, c: usize, k: usize, rewind: usize) -> (conv: Self)
        requires
            c >= 1,
            k >= 1,
            w.len() == c * k,
            k - 1 + rewind <= usize::MAX,
        ensures
            conv.wf(),
            conv.w == w,
            conv.c == c,
            conv.k == k,
            conv.history().slack() == rewind,
            conv.history().rows() == if k - 1 + rewind >= 1 {
                k - 1 + rewind
            } else {
                1
            },
            conv_fresh(conv),
    {
        let ring: Ring = Ring::wrapping(c, k - 1, rewind);
        ShortConv { w, c, k, ring }
    }

    /// Positions consumed so far.
    pub fn len(&self) -> (n: usize)
        ensures
            n == self.history().length(),
    {
        self.ring.len()
    }

    pub fn is_empty(&self) -> (b: bool)
        ensures
            b == (self.history().length() == 0),
    {
        self.ring.is_empty()
    }

    pub fn rewind(&self) -> (n: usize)
        ensures
            n == self.history().slack(),
    {
        self.ring.rewind()
    }

    pub fn cache_bytes(&self) -> (n: usize)
        requires
            self.history().rows() * self.history().row_width() * 4 <= usize::MAX,
        ensures
            n == self.history().rows() * self.history().row_width() * 4,
    {
        self.ring.cache_bytes()
    }

    /// Records one input and gives the `k` inputs that its position reads.
    pub fn decode(&mut self, u: &[u32]) -> (taps: Vec<Option<Vec<u32>>>)
        requires
            old(self).wf(),
            u.len() == old(self).c,
            old(self).history().length() < usize::MAX,
        ensures
            final(self).wf(),
            conv_stepped(*old(self), *final(self), u@),
            taps_for(
                taps@,
                old(self).history().held(),
                old(self).history().length() as int,
                seq![u@],
                0,
                old(self).k as int,
            ),
    {
        let p: usize = self.ring.len();
        let k: usize = self.k;
        let ghost held = self.ring.held();
        let mut taps: Vec<Option<Vec<u32>>> = Vec::new();
        let mut j: usize = 0;
        while j < k
            invariant
                self.wf(),
                *self == *old(self),
                p == self.ring.length(),
                k == self.k,
                u.len() == self.c,
                held == self.ring.held(),
                j <= k,
                taps.len() == j,
                forall|x: int|
                    0 <= x < j ==> tap_is(
                        #[trigger] taps[x],
                        tap_input(held, p as int, seq![u@], 0, k - 1 - x),
                    ),
            decreases k - j,
        {
            let back: usize = k - 1 - j;
            if back > p {
                taps.push(None);
            } else if back == 0 {
                let now: Vec<u32> = copy_of(u);
                taps.push(Some(now));
            } else {
                proof {
                    self.ring.law_lookback_is_held(p - back);
                }
                let past: Vec<u32> = copy_of(self.ring.row(p - back).as_slice());
                taps.push(Some(past));
            }
            j += 1;
        }
        self.ring.push(u);
        taps
    }

    /// Records `t` inputs, row by row, and gives what each of them reads.
    pub fn prefill(&mut self, u: &[u32], t: usize) -> (rows: Vec<Vec<Option<Vec<u32>>>>)
        requires
            old(self).wf(),
            u.len() == t * old(self).c,
            old(self).history().length() + t <= usize::MAX,
        ensures
            final(self).wf(),
            conv_fed(*old(self), *final(self), u@, t as nat),
            taps_fed(rows@, *old(self), u@, t as nat),
    {
        let c: usize = self.c;
        let ghost us = input_rows(u@, t as nat, c as int);
        let ghost held = self.ring.held();
        let ghost p0 = self.ring.length() as int;
        proof {
            self.ring.law_mark_covers_the_length();
            self.ring.law_held_positions();
        }
        let mut rows: Vec<Vec<Option<Vec<u32>>>> = Vec::new();
        let mut i: usize = 0;
        proof {
            assert(self.ring.held() =~= after_inputs(
                held,
                p0,
                us,
                0,
                self.ring.oldest() as int,
            ));
        }
        while i < t
            invariant
                old(self).wf(),
                self.wf(),
                self.same_kernel(*old(self)),
                c == self.c,
                c == old(self).c,
                u.len() == t * c,
                us == input_rows(u@, t as nat, c as int),
                held == old(self).ring.held(),
                p0 == old(self).ring.length(),
                p0 + t <= usize::MAX,
                i <= t,
                rows.len() == i,
                self.ring.length() == p0 + i,
                self.ring.mark() >= p0 + i,
                self.ring.mark() == old(self).ring.mark() || self.ring.mark() == p0 + i,
                self.ring.mark() >= old(self).ring.mark(),
                old(self).ring.mark() >= p0,
                self.ring.held() == after_inputs(held, p0, us, i as int, self.ring.oldest() as int),
                forall|x: int|
                    0 <= x < i ==> taps_for(
                        (#[trigger] rows[x])@,
                        held,
                        p0,
                        us,
                        x,
                        old(self).k as int,
                    ),
            decreases t - i,
        {
            proof {
                assert(0 <= i * c && i * c + c == (i + 1) * c && (i + 1) * c <= t * c)
                    by (nonlinear_arith)
                    requires
                        0 <= i < t,
                        0 <= c,
                ;
            }
            let lo: usize = i * c;
            let hi: usize = lo + c;
            let row: Vec<u32> = copy_of(slice_of(u, lo, hi));
            let ghost before = self.ring;
            let taps: Vec<Option<Vec<u32>>> = self.decode(row.as_slice());
            proof {
                assert(row@ == us[i as int]);
                assert forall|j: int| 0 <= j < old(self).k implies tap_is(
                    #[trigger] taps[j],
                    tap_input(held, p0, us, i as int, old(self).k - 1 - j),
                ) by {
                    let back = old(self).k - 1 - j;
                    let q = p0 + i - back;
                    if 0 <= q && 0 < back {
                        before.law_lookback_is_held(q);
                    }
                    assert(tap_input(before.held(), p0 + i, seq![row@], 0, back) == tap_input(
                        held,
                        p0,
                        us,
                        i as int,
                        back,
                    ));
                }
                assert(self.ring.held() =~= after_inputs(
                    held,
                    p0,
                    us,
                    i + 1,
                    self.ring.oldest() as int,
                ));
            }
            rows.push(taps);
            i += 1;
        }
        rows
    }

    /// Forgets everything.
    pub fn reset(&mut self)
        requires
            old(self).wf(),
        ensures
            final(self).wf(),
            final(self).same_kernel(*old(self)),
            conv_fresh(*final(self)),
    {
        self.ring.reset();
    }

    /// Rolls back to `len` positions, within the slack.
    pub fn truncate(&mut self, len: usize)
        requires
            old(self).wf(),
            old(self).history().can_truncate(len as nat),
        ensures
            conv_truncated(*old(self), *final(self), len as nat),
    {
        self.ring.truncate(len);
    }

    /// Copies out the held inputs.
    pub fn snapshot(&self) -> (s: RingState)
        requires
            self.wf(),
        ensures
            conv_saved(s, *self),
    {
        self.ring.snapshot()
    }

    /// Replaces the history by a snapshot's, trimmed to this ring.
    pub fn restore(&mut self, s: &RingState)
        requires
            old(self).wf(),
            conv_fits(*s, *old(self)),
        ensures
            conv_restored(*old(self), *final(self), *s),
    {
        self.ring.restore(s);
    }

    /// The same kernel with an empty history.
    pub fn empty_like(&self) -> (c: ShortConv)
        requires
            self.wf(),
        ensures
            c.wf(),
            c.same_kernel(*self),
            conv_fresh(c),
    {
        let w: Vec<u32> = copy_of(self.w.as_slice());
        ShortConv { w, c: self.c, k: self.k, ring: self.ring.empty_like() }
    }
}

/// A convolution with the histories of several sequences, one of them live.
pub struct ConvPool {
    pub slots: Vec<ShortConv>,
    pub live: usize,
    pub conv: ShortConv,
}

/// The history in a slot: the live one for the live slot, else the parked one.
pub open spec fn slot_conv(pool: ConvPool, slot: int) -> ShortConv {
    if slot == pool.live {
        pool.conv
    } else {
        pool.slots[slot]
    }
}

impl ConvPool {
    pub open spec fn wf(self) -> bool {
        &&& self.conv.wf()
        &&& self.slots.len() == 0 ==> self.live == 0
        &&& self.slots.len() > 0 ==> self.live < self.slots.len()
        &&& forall|i: int|
            0 <= i < self.slots.len() ==> {
                &&& (#[trigger] self.slots[i]).wf()
                &&& self.slots[i].same_kernel(self.conv)
            }
    }

    /// Only the live history may differ.
    pub open spec fn same_parked(self, other: ConvPool) -> bool {
        &&& self.slots == other.slots
        &&& self.live == other.live
        &&& self.conv.same_kernel(other.conv)
    }

    pub fn new(conv: ShortConv) -> (pool: Self)
        requires
            conv.wf(),
        ensures
            pool.wf(),
            pool.conv == conv,
            pool.live == 0,
            pool.slots.len() == 0,
    {
        ConvPool { slots: Vec::new(), live: 0, conv }
    }

    /// Grows the pool to `n` histories; new ones are empty.
    pub fn ensure_slots(&mut self, n: usize)
        requires
            old(self).wf(),
        ensures
            final(self).wf(),
            final(self).live == old(self).live,
            final(self).conv == old(self).conv,
            final(self).slots.len() == if n > old(self).slots.len() {
                n as nat
            } else {
                old(self).slots.len() as nat
            },
            forall|i: int|
                0 <= i < old(self).slots.len() ==> #[trigger] final(self).slots[i] == old(self).slots[i],
            forall|i: int|
                old(self).slots.len() <= i < final(self).slots.len() ==> conv_fresh(
                    #[trigger] final(self).slots[i],
                ),
    {
        while self.slots.len() < n
            invariant
                self.wf(),
                self.live == old(self).live,
                self.conv == old(self).conv,
                old(self).slots.len() <= self.slots.len(),
                self.slots.len() <= n || self.slots.len() == old(self).slots.len(),
                forall|i: int|
                    0 <= i < old(self).slots.len() ==> #[trigger] self.slots[i] == old(self).slots[i],
                forall|i: int|
                    old(self).slots.len() <= i < self.slots.len() ==> conv_fresh(
                        #[trigger] self.slots[i],
                    ),
            decreases n - self.slots.len(),
        {
            let c: ShortConv = self.conv.empty_like();
            self.slots.push(c);
        }
    }

    /// Makes the history of `slot` the live one and parks the current one.
    pub fn select(&mut self, slot: usize)
        requires
            old(self).wf(),
            slot < old(self).slots.len(),
        ensures
            final(self).wf(),
            final(self).live == slot,
            final(self).slots.len() == old(self).slots.len(),
            final(self).conv.same_kernel(old(self).conv),
            forall|i: int|
                0 <= i < old(self).slots.len() ==> #[trigger] slot_conv(*final(self), i)
                    == slot_conv(*old(self), i),
    {
        if slot == self.live {
            return;
        }
        let cur: usize = self.live;
        std::mem::swap(&mut self.conv, &mut self.slots[cur]);
        std::mem::swap(&mut self.conv, &mut self.slots[slot]);
        self.live = slot;
    }
}

/// `after` is `before` with `u` recorded as the input of its next position.
pub open spec fn conv_stepped(before: ShortConv, after: ShortConv, u: Seq<u32>) -> bool {
    &&& after.same_kernel(before)
    &&& ring::pushed(before.history(), after.history(), u)
}

/// The rows of a `t` by `c` matrix.
pub open spec fn input_rows(u: Seq<u32>, t: nat, c: int) -> Seq<Seq<u32>> {
    Seq::new(t, |i: int| matrix_row(u, i, c))
}

/// What a history holds after the first `n` rows of `us` were recorded from
/// position `p0` on: everything not older than `oldest`.
pub open spec fn after_inputs(
    held: Map<int, Seq<u32>>,
    p0: int,
    us: Seq<Seq<u32>>,
    n: int,
    oldest: int,
) -> Map<int, Seq<u32>> {
    Map::new(
        |q: int| oldest <= q && (held.dom().contains(q) || p0 <= q < p0 + n),
        |q: int|
            if p0 <= q < p0 + n {
                us[q - p0]
            } else {
                held[q]
            },
    )
}

/// `after` is `before` with the `t` rows of `u` recorded as the inputs of its next
/// positions.
pub open spec fn conv_fed(before: ShortConv, after: ShortConv, u: Seq<u32>, t: nat) -> bool {
    &&& after.same_kernel(before)
    &&& after.history().length() == before.history().length() + t
    &&& after.history().mark() == if before.history().mark() > before.history().length() + t {
        before.history().mark()
    } else {
        before.history().length() + t
    }
    &&& after.history().held() =~= after_inputs(
        before.history().held(),
        before.history().length() as int,
        input_rows(u, t, before.c as int),
        t as int,
        after.history().oldest() as int,
    )
}

/// What each of the `t` rows of `u` reads when they are fed to `before`.
pub open spec fn taps_fed(
    rows: Seq<Vec<Option<Vec<u32>>>>,
    before: ShortConv,
    u: Seq<u32>,
    t: nat,
) -> bool {
    &&& rows.len() == t
    &&& forall|i: int|
        0 <= i < t ==> taps_for(
            (#[trigger] rows[i])@,
            before.history().held(),
            before.history().length() as int,
            input_rows(u, t, before.c as int),
            i,
            before.k as int,
        )
}

fn slice_of(u: &[u32], lo: usize, hi: usize) -> (s: &[u32])
    requires
        lo <= hi <= u.len(),
    ensures
        s@ == u@.subrange(lo as int, hi as int),
{
    vstd::slice::slice_subrange(u, lo, hi)
}

fn copy_of(u: &[u32]) -> (v: Vec<u32>)
    ensures
        v@ == u@,
{
    let mut v: Vec<u32> = Vec::new();
    let mut i: usize = 0;
    while i < u.len()
        invariant
            i <= u.len(),
            v@ == u@.take(i as int),
        decreases u.len() - i,
    {
        proof {
            assert(u@.take(i + 1) =~= u@.take(i as int).push(u@[i as int]));
        }
        v.push(u[i]);
        i += 1;
    }
    proof {
        assert(u@.take(u.len() as int) =~= u@);
    }
    v
}

/// Feeding a sequence in two parts reads what one pass reads: the second part,
/// fed to the history that the first `m` rows leave behind, sees the same inputs.
pub proof fn law_split_reads_what_one_pass_reads(
    held: Map<int, Seq<u32>>,
    p0: int,
    us: Seq<Seq<u32>>,
    m: int,
    oldest: int,
    i: int,
    back: int,
)
    requires
        0 <= p0,
        0 <= m <= us.len(),
        0 <= i < us.len() - m,
        0 <= back,
        p0 + m + i - back < 0 || oldest <= p0 + m + i - back,
        0 <= p0 + m + i - back < p0 ==> held.dom().contains(p0 + m + i - back),
    ensures
        tap_input(
            after_inputs(held, p0, us, m, oldest),
            p0 + m,
            us.skip(m),
            i,
            back,
        ) == tap_input(held, p0, us, m + i, back),
{
}

/// Rows fed at once leave the history that single steps leave: one more step after `t`
/// rows is what feeding all of them at once gives.
pub proof fn law_rows_at_once_are_single_steps(
    before: ShortConv,
    mid: ShortConv,
    after: ShortConv,
    u: Seq<u32>,
    row: Seq<u32>,
    t: nat,
)
    requires
        before.wf(),
        u.len() == t * before.c,
        row.len() == before.c,
        conv_fed(before, mid, u, t),
        conv_stepped(mid, after, row),
    ensures
        conv_fed(before, after, u + row, t + 1),
{
    let c = before.c as int;
    let us = input_rows(u, t, c);
    let all = input_rows(u + row, t + 1, c);
    assert forall|i: int| 0 <= i < t implies all[i] == us[i] by {
        assert(0 <= i * c && (i + 1) * c <= t * c && i * c <= (i + 1) * c) by (nonlinear_arith)
            requires
                0 <= i < t,
                0 <= c,
        ;
        assert(matrix_row(u + row, i, c) =~= matrix_row(u, i, c));
    }
    assert(all[t as int] == row) by {
        assert((t + 1) * c == t * c + c) by (nonlinear_arith);
        assert(matrix_row(u + row, t as int, c) =~= row);
    }
    assert(after.history().held() =~= after_inputs(
        before.history().held(),
        before.history().length() as int,
        all,
        (t + 1) as int,
        after.history().oldest() as int,
    ));
}

/// Taps move with the position. The tap that looks back by 0 reads the input of its own
/// row; one row on and one further back is the same input; from the first row on the
/// history is read; before the first position there is nothing.
pub proof fn law_taps_look_back(
    held: Map<int, Seq<u32>>,
    p0: int,
    us: Seq<Seq<u32>>,
    i: int,
    back: int,
)
    requires
        0 <= p0,
        0 <= i < us.len(),
        0 <= back,
    ensures
        tap_input(held, p0, us, i, 0) == Some(us[i]),
        back <= i ==> tap_input(held, p0, us, i, back) == Some(us[i - back]),
        i < back <= p0 + i ==> tap_input(held, p0, us, i, back) == Some(held[p0 - (back - i)]),
        back > p0 + i ==> tap_input(held, p0, us, i, back) is None,
        tap_input(held, p0, us, i + 1, back + 1) == tap_input(held, p0, us, i, back),
{
}

/// The taps of a row stand oldest first: the last one reads the row itself, the one
/// before it the row before.
pub proof fn law_taps_stand_oldest_first(
    taps: Seq<Option<Vec<u32>>>,
    held: Map<int, Seq<u32>>,
    p0: int,
    us: Seq<Seq<u32>>,
    i: int,
    k: int,
    j: int,
)
    requires
        taps_for(taps, held, p0, us, i, k),
        0 <= p0,
        0 <= i < us.len(),
        0 <= j < k,
    ensures
        taps.len() == k,
        k - 1 - j <= i ==> taps[j] is Some && taps[j]->0@ == us[i - (k - 1 - j)],
        i < k - 1 - j <= p0 + i ==> taps[j] is Some && taps[j]->0@ == held[p0 + i - (k - 1 - j)],
        k - 1 - j > p0 + i ==> taps[j] is None,
{
    assert(tap_is(taps[j], tap_input(held, p0, us, i, k - 1 - j)));
}

/// Value `x` of row `i` is value `i * c + x` of the matrix.
pub proof fn law_rows_of_a_matrix(u: Seq<u32>, i: int, c: int, x: int)
    requires
        0 <= i,
        0 <= x < c,
        (i + 1) * c <= u.len(),
    ensures
        matrix_row(u, i, c).len() == c,
        matrix_row(u, i, c)[x] == u[i * c + x],
{
    assert((i + 1) * c == i * c + c && i * c >= 0) by (nonlinear_arith)
        requires
            0 <= i,
            0 < c,
    ;
}

/// What was fed is held at its positions, and what was held before stays as it was.
pub proof fn law_fed_rows_are_held(
    held: Map<int, Seq<u32>>,
    p0: int,
    us: Seq<Seq<u32>>,
    n: int,
    oldest: int,
    q: int,
)
    ensures
        ({
            let after = after_inputs(held, p0, us, n, oldest);
            &&& oldest <= q && p0 <= q < p0 + n ==> after.dom().contains(q) && after[q] == us[q - p0]
            &&& oldest <= q < p0 ==> (after.dom().contains(q) <==> held.dom().contains(q))
            &&& after.dom().contains(q) && q < p0 ==> after[q] == held[q]
            &&& q < oldest ==> !after.dom().contains(q)
        }),
{
}

/// Rolled back, a convolution holds the inputs before the new length as they were, and
/// keeps its kernel.
pub proof fn law_rollback_keeps_the_inputs_before(
    before: ShortConv,
    after: ShortConv,
    len: nat,
    q: int,
)
    requires
        conv_truncated(before, after, len),
    ensures
        after.history().length() == len,
        after.w@ == before.w@,
        q < len && before.history().held().dom().contains(q) ==> after.history().held()[q]
            == before.history().held()[q],
        q >= len ==> !after.history().held().dom().contains(q),
{
}

/// A restored convolution is at the saved length, and holds of the saved inputs those that
/// it has rows for.
pub proof fn law_a_restored_convolution_reads_the_saved_inputs(
    before: ShortConv,
    after: ShortConv,
    s: RingState,
    q: int,
)
    requires
        conv_restored(before, after, s),
        0 <= q,
    ensures
        after.history().length() == s.length(),
        after.w@ == before.w@,
        s.saved().dom().contains(q) && s.length() - q <= before.history().rows()
            ==> after.history().held().dom().contains(q) && after.history().held()[q]
            == s.saved()[q],
{
}

/// Fed rows move the length on by their number, and each is held at its position with the
/// values of its row of the matrix.
pub proof fn law_fed_rows_stand_at_their_positions(
    before: ShortConv,
    after: ShortConv,
    u: Seq<u32>,
    t: nat,
    i: int,
    x: int,
)
    requires
        before.wf(),
        conv_fed(before, after, u, t),
        u.len() == t * before.c,
        0 <= i < t,
        0 <= x < before.c,
        after.history().oldest() <= before.history().length() + i,
    ensures
        after.history().length() == before.history().length() + t,
        after.history().mark() >= after.history().length(),
        after.history().held().dom().contains(before.history().length() + i),
        after.history().held()[before.history().length() + i][x] == u[i * before.c + x],
{
    let c = before.c as int;
    assert((i + 1) * c <= t * c) by (nonlinear_arith)
        requires
            i + 1 <= t,
            0 < c,
    ;
    law_rows_of_a_matrix(u, i, c, x);
}

/// The taps of fed rows: tap `j` of row `i` reads the input `k - 1 - j` positions before
/// the row, from the rows themselves as far as they reach back.
pub proof fn law_taps_of_fed_rows(
    rows: Seq<Vec<Option<Vec<u32>>>>,
    before: ShortConv,
    u: Seq<u32>,
    t: nat,
    i: int,
    j: int,
    x: int,
)
    requires
        before.wf(),
        taps_fed(rows, before, u, t),
        u.len() == t * before.c,
        0 <= i < t,
        0 <= j < before.k,
        0 <= x < before.c,
    ensures
        rows.len() == t,
        rows[i].len() == before.k,
        ({
            let back = before.k - 1 - j;
            let p0 = before.history().length() as int;
            &&& back <= i ==> rows[i][j] is Some && (rows[i][j]->0)[x] == u[(i - back) * before.c
                + x]
            &&& i < back <= p0 + i ==> rows[i][j] is Some && rows[i][j]->0@
                == before.history().held()[p0 + i - back]
            &&& back > p0 + i ==> rows[i][j] is None
        }),
{
    let c = before.c as int;
    let us = input_rows(u, t, c);
    let p0 = before.history().length() as int;
    law_taps_stand_oldest_first(rows[i]@, before.history().held(), p0, us, i, before.k as int, j);
    let back = before.k - 1 - j;
    if back <= i {
        let r = i - back;
        assert((r + 1) * c <= t * c) by (nonlinear_arith)
            requires
                r + 1 <= t,
                0 < c,
        ;
        law_rows_of_a_matrix(u, r, c, x);
        assert(rows[i]@[j]->0@ == us[r]);
    }
}

/// Feeding, stepping, rolling back and restoring leave the kernel and the shape of the
/// history as they are.
pub proof fn law_the_kernel_stays(
    before: ShortConv,
    after: ShortConv,
    u: Seq<u32>,
    t: nat,
    len: nat,
    s: RingState,
)
    requires
        conv_fed(before, after, u, t) || conv_stepped(before, after, u) || conv_truncated(
            before,
            after,
            len,
        ) || conv_restored(before, after, s),
    ensures
        after.w@ == before.w@,
        after.c == before.c,
        after.k == before.k,
        after.history().rows() == before.history().rows(),
        after.history().row_width() == before.history().row_width(),
        after.history().lookback() == before.history().lookback(),
        after.history().slack() == before.history().slack(),
        after.history().is_bounded() == before.history().is_bounded(),
{
}

/// A stepped convolution holds its input at the position that it stepped over.
pub proof fn law_a_step_is_held(before: ShortConv, after: ShortConv, u: Seq<u32>)
    requires
        before.wf(),
        after.wf(),
        conv_stepped(before, after, u),
    ensures
        after.history().length() == before.history().length() + 1,
        after.history().held().dom().contains(before.history().length() as int),
        after.history().held()[before.history().length() as int] == u,
{
    ring::law_pushed_row_is_read_back(
        before.history(),
        after.history(),
        u,
        before.history().length() as int,
    );
}

/// A fresh convolution has consumed nothing.
pub proof fn law_a_fresh_convolution_is_empty(c: ShortConv, q: int)
    requires
        conv_fresh(c),
    ensures
        c.history().length() == 0,
        c.history().mark() == 0,
        !c.history().held().dom().contains(q),
{
}

} // verus!
