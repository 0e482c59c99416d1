//! The short causal convolution before the linear-attention layers: which inputs each
//! position reads, and the window of past inputs that is carried on.
//!
//! The window is channel by channel, oldest first, and holds the last `k - 1` inputs.
//! Numbers are single-precision bits; the sums themselves are the caller's.
use vstd::prelude::*;

verus! {

/// Channel `c` of the carried window followed by the inputs.
pub open spec fn stream(state: Seq<u32>, x: Seq<u32>, d: int, k: int, c: int) -> Seq<u32> {
    Seq::new(
        (k - 1 + x.len() as int / d) as nat,
        |i: int|
            if i < k - 1 {
                state[c * (k - 1) + i]
            } else {
                x[(i - (k - 1)) * d + c]
            },
    )
}

/// A window and a run of whole positions.
pub open spec fn fits(state: Seq<u32>, x: Seq<u32>, d: int, k: int) -> bool {
    &&& d > 0
    &&& k > 0
    &&& state.len() == d * (k - 1)
    &&& x.len() == (x.len() as int / d) * d
}

/// The window after a run: the last `k - 1` inputs of every channel.
pub open spec fn is_rolled(
    next: Seq<u32>,
    state: Seq<u32>,
    x: Seq<u32>,
    d: int,
    k: int,
) -> bool {
    &&& next.len() == d * (k - 1)
    &&& forall|c: int, s: int|
        0 <= c < d && 0 <= s < k - 1 ==> next[#[trigger] place(c, k, s)] == stream(
            state,
            x,
            d,
            k,
            c,
        )[x.len() as int / d + s]
}

/// Where a channel keeps its past input `s`.
pub open spec fn place(c: int, k: int, s: int) -> int {
    c * (k - 1) + s
}

proof fn lemma_place(c: int, k: int, s: int, d: int)
    requires
        0 <= c < d,
        0 <= s < k - 1,
    ensures
        0 <= place(c, k, s) < d * (k - 1),
{
    assert(0 <= c * (k - 1) && c * (k - 1) + (k - 1) <= d * (k - 1)) by (nonlinear_arith)
        requires
            0 <= c < d,
            0 <= k - 1,
    ;
}

proof fn lemma_input(p: int, c: int, d: int, t: int)
    requires
        0 <= p < t,
        0 <= c < d,
    ensures
        0 <= p * d,
        p * d + c < t * d,
{
    assert(0 <= p * d && p * d + d <= t * d) by (nonlinear_arith)
        requires
            0 <= p < t,
            0 <= d,
    ;
}

/// The inputs that one channel reads at position `pos`, oldest first; reads before the
/// first position reach into the window.
pub fn conv_taps(x: &[u32], state: &[u32], d: usize, k: usize, pos: usize, c: usize) -> (taps: Vec<
    u32,
>)
    requires
        fits(state@, x@, d as int, k as int),
        pos < x.len() as int / d as int,
        c < d,
    ensures
        taps@ == stream(state@, x@, d as int, k as int, c as int).subrange(pos as int, pos + k),
{
    let ghost all = stream(state@, x@, d as int, k as int, c as int);
    let ghost t = x.len() as int / d as int;
    let mut taps: Vec<u32> = Vec::new();
    let mut j: usize = 0;
    while j < k
        invariant
            j <= k,
            fits(state@, x@, d as int, k as int),
            t == x.len() as int / d as int,
            pos < t,
            c < d,
            all == stream(state@, x@, d as int, k as int, c as int),
            taps@ =~= all.subrange(pos as int, pos + j),
        decreases k - j,
    {
        let back: usize = k - 1 - j;
        let v: u32 = if pos >= back {
            proof {
                lemma_input(pos - back, c as int, d as int, t);
                assert(pos - back == pos + j - (k - 1));
            }
            x[(pos - back) * d + c]
        } else {
            let s: usize = (k - 1) - (back - pos);
            proof {
                lemma_place(c as int, k as int, s as int, d as int);
                assert(s == pos + j);
                assert(state.len() == d * (k - 1));
                assert(0 <= c * (k - 1)) by (nonlinear_arith)
                    requires
                        c >= 0,
                        k >= 1,
                ;
            }
            state[c * (k - 1) + s]
        };
        proof {
            assert(v == all[pos + j]);
        }
        taps.push(v);
        j += 1;
    }
    taps
}

/// Carries the window on over a run of inputs.
pub fn roll_window(x: &[u32], state: &mut Vec<u32>, d: usize, k: usize)
    requires
        fits(old(state)@, x@, d as int, k as int),
    ensures
        is_rolled(final(state)@, old(state)@, x@, d as int, k as int),
{
    let keep: usize = k - 1;
    let t: usize = x.len() / d;
    let ghost before = state@;
    let mut next: Vec<u32> = Vec::new();
    let mut c: usize = 0;
    while c < d
        invariant
            c <= d,
            d > 0,
            keep == k - 1,
            k > 0,
            t == x.len() as int / d as int,
            state@ == before,
            fits(before, x@, d as int, k as int),
            next.len() == c * keep,
            forall|a: int, s: int|
                0 <= a < c && 0 <= s < k - 1 ==> next@[#[trigger] place(a, k as int, s)] == stream(
                    before,
                    x@,
                    d as int,
                    k as int,
                    a,
                )[t + s],
        decreases d - c,
    {
        let ghost done = next@;
        proof {
            assert((c + 1) * keep == c * keep + keep && 0 <= c * keep && (c + 1) * keep <= d * keep)
                by (nonlinear_arith)
                requires
                    c + 1 <= d,
                    keep >= 0,
            ;
        }
        let mut s: usize = 0;
        while s < keep
            invariant
                s <= keep,
                c < d,
                keep == k - 1,
                k > 0,
                t == x.len() as int / d as int,
                state@ == before,
                fits(before, x@, d as int, k as int),
                next.len() == done.len() + s,
                done.len() == c * keep,
                c * keep + keep <= d * keep,
                0 <= c * keep,
                next@.take(done.len() as int) =~= done,
                forall|b: int|
                    0 <= b < s ==> next@[#[trigger] place(c as int, k as int, b)] == stream(
                        before,
                        x@,
                        d as int,
                        k as int,
                        c as int,
                    )[t + b],
            decreases keep - s,
        {
            let from_end: usize = keep - s;
            proof {
                lemma_place(c as int, k as int, s as int, d as int);
            }
            let v: u32 = if t >= from_end {
                proof {
                    lemma_input(t - from_end, c as int, d as int, t as int);
                    assert(t - from_end == t + s - (k - 1));
                }
                x[(t - from_end) * d + c]
            } else {
                let q: usize = keep - (from_end - t);
                proof {
                    lemma_place(c as int, k as int, q as int, d as int);
                    assert(q == t + s);
                    assert(state.len() == d * (k - 1));
                    assert(c * keep + q == place(c as int, k as int, q as int));
                }
                state[c * keep + q]
            };
            proof {
                assert(v == stream(before, x@, d as int, k as int, c as int)[t + s]);
            }
            let ghost old_next = next@;
            next.push(v);
            proof {
                assert(next@.take(done.len() as int) =~= done);
                assert forall|b: int| 0 <= b < s + 1 implies next@[#[trigger] place(
                    c as int,
                    k as int,
                    b,
                )] == stream(before, x@, d as int, k as int, c as int)[t + b] by {
                    if b < s {
                        assert(next@[place(c as int, k as int, b)] == old_next[place(
                            c as int,
                            k as int,
                            b,
                        )]);
                    }
                }
            }
            s += 1;
        }
        proof {
            assert forall|a: int, b: int| 0 <= a < c + 1 && 0 <= b < k - 1 implies next@[
                #[trigger] place(a, k as int, b)] == stream(before, x@, d as int, k as int, a)[t
                + b] by {
                if a < c {
                    lemma_place(a, k as int, b, c as int);
                    assert(done[place(a, k as int, b)] == next@.take(done.len() as int)[place(
                        a,
                        k as int,
                        b,
                    )]);
                }
            }
        }
        c += 1;
    }
    *state = next;
}

/// The stream of a rolled window is the tail of the stream of one long run.
proof fn lemma_rolled_stream(
    state: Seq<u32>,
    first: Seq<u32>,
    second: Seq<u32>,
    mid: Seq<u32>,
    d: int,
    k: int,
    c: int,
)
    requires
        fits(state, first, d, k),
        fits(mid, second, d, k),
        is_rolled(mid, state, first, d, k),
        0 <= c < d,
    ensures
        (first + second).len() as int / d == first.len() as int / d + second.len() as int / d,
        fits(state, first + second, d, k),
        stream(mid, second, d, k, c) =~= stream(state, first + second, d, k, c).skip(
            first.len() as int / d,
        ),
{
    let t1 = first.len() as int / d;
    let t2 = second.len() as int / d;
    let x = first + second;
    assert(x.len() == (t1 + t2) * d) by (nonlinear_arith)
        requires
            first.len() == t1 * d,
            second.len() == t2 * d,
            x.len() == first.len() + second.len(),
    ;
    vstd::arithmetic::div_mod::lemma_fundamental_div_mod_converse(x.len() as int, d, t1 + t2, 0);
    let a = stream(mid, second, d, k, c);
    let whole = stream(state, x, d, k, c);
    let head = stream(state, first, d, k, c);
    vstd::arithmetic::div_mod::lemma_div_pos_is_pos(first.len() as int, d);
    vstd::arithmetic::div_mod::lemma_div_pos_is_pos(second.len() as int, d);
    assert forall|i: int| 0 <= i < k - 1 + t2 implies a[i] == whole[t1 + i] by {
        if i < k - 1 {
            assert(mid[place(c, k, i)] == head[t1 + i]);
            if t1 + i >= k - 1 {
                lemma_input(t1 + i - (k - 1), c, d, t1);
                assert(x[(t1 + i - (k - 1)) * d + c] == first[(t1 + i - (k - 1)) * d + c]);
            }
        } else {
            let p = i - (k - 1);
            lemma_input(p, c, d, t2);
            assert((t1 + p) * d + c == t1 * d + (p * d + c)) by (nonlinear_arith);
            assert(x[(t1 + p) * d + c] == second[p * d + c]);
            assert(t1 + i - (k - 1) == t1 + p);
        }
    }
}

/// A run in two parts, with the window carried over, reads exactly what one run reads:
/// position `pos` of the second part is position `first / d + pos` of the whole.
pub proof fn law_split_run_reads_the_same(
    state: Seq<u32>,
    first: Seq<u32>,
    second: Seq<u32>,
    mid: Seq<u32>,
    d: int,
    k: int,
    c: int,
    pos: int,
)
    requires
        fits(state, first, d, k),
        fits(mid, second, d, k),
        is_rolled(mid, state, first, d, k),
        0 <= c < d,
        0 <= pos < second.len() as int / d,
    ensures
        stream(mid, second, d, k, c).subrange(pos, pos + k) == stream(
            state,
            first + second,
            d,
            k,
            c,
        ).subrange(first.len() as int / d + pos, first.len() as int / d + pos + k),
{
    lemma_rolled_stream(state, first, second, mid, d, k, c);
    let t1 = first.len() as int / d;
    vstd::arithmetic::div_mod::lemma_div_pos_is_pos(first.len() as int, d);
    assert(stream(mid, second, d, k, c).subrange(pos, pos + k) =~= stream(
        state,
        first + second,
        d,
        k,
        c,
    ).subrange(t1 + pos, t1 + pos + k));
}

/// A run in two parts leaves the window that one run leaves.
pub proof fn law_split_run_leaves_the_same_window(
    state: Seq<u32>,
    first: Seq<u32>,
    second: Seq<u32>,
    mid: Seq<u32>,
    last: Seq<u32>,
    d: int,
    k: int,
)
    requires
        fits(state, first, d, k),
        fits(mid, second, d, k),
        is_rolled(mid, state, first, d, k),
        is_rolled(last, mid, second, d, k),
    ensures
        is_rolled(last, state, first + second, d, k),
{
    let x = first + second;
    let t1 = first.len() as int / d;
    let t2 = second.len() as int / d;
    vstd::arithmetic::div_mod::lemma_div_pos_is_pos(first.len() as int, d);
    vstd::arithmetic::div_mod::lemma_div_pos_is_pos(second.len() as int, d);
    assert forall|c: int, s: int| 0 <= c < d && 0 <= s < k - 1 implies last[#[trigger] place(
        c,
        k,
        s,
    )] == stream(state, x, d, k, c)[x.len() as int / d + s] by {
        lemma_rolled_stream(state, first, second, mid, d, k, c);
        assert(last[place(c, k, s)] == stream(mid, second, d, k, c)[t2 + s]);
        assert(stream(state, x, d, k, c).skip(t1)[t2 + s] == stream(state, x, d, k, c)[t1 + t2
            + s]);
    }
}

/// The inputs of a channel, oldest first: those that the window kept, then those of the
/// new rows.
pub proof fn law_inputs_of_a_channel(state: Seq<u32>, x: Seq<u32>, d: int, k: int, c: int, i: int)
    requires
        fits(state, x, d, k),
        0 <= c < d,
        0 <= i < k - 1 + x.len() as int / d,
    ensures
        stream(state, x, d, k, c).len() == k - 1 + x.len() as int / d,
        i < k - 1 ==> stream(state, x, d, k, c)[i] == state[c * (k - 1) + i],
        i >= k - 1 ==> stream(state, x, d, k, c)[i] == x[(i - (k - 1)) * d + c],
{
    assert(x.len() as int / d >= 0) by (nonlinear_arith)
        requires
            d > 0,
            x.len() >= 0,
    ;
}

/// After the rows the window holds the last `k - 1` inputs of each channel: new ones, and
/// old ones as far as there are too few new ones.
pub proof fn law_window_holds_the_last_inputs(
    next: Seq<u32>,
    state: Seq<u32>,
    x: Seq<u32>,
    d: int,
    k: int,
    c: int,
    s: int,
)
    requires
        fits(state, x, d, k),
        is_rolled(next, state, x, d, k),
        0 <= c < d,
        0 <= s < k - 1,
    ensures
        next.len() == state.len(),
        ({
            let rows = x.len() as int / d;
            let at = rows + s - (k - 1);
            &&& at >= 0 ==> next[c * (k - 1) + s] == x[at * d + c]
            &&& at < 0 ==> next[c * (k - 1) + s] == state[c * (k - 1) + s + rows]
        }),
{
    assert(x.len() as int / d >= 0) by (nonlinear_arith)
        requires
            d > 0,
            x.len() >= 0,
    ;
    assert(next[place(c, k, s)] == stream(state, x, d, k, c)[x.len() as int / d + s]);
}

} // verus!
