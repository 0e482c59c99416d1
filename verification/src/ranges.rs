//! Consecutive ranges of bounded length.
use vstd::prelude::*;

verus! {

/// Range `i` of `n` items in chunks of `size`.
pub open spec fn chunk(n: int, size: int, i: int) -> (int, int) {
    (
        i * size,
        if (i + 1) * size < n {
            (i + 1) * size
        } else {
            n
        },
    )
}

/// These are the ranges of `n` items in chunks of `size`: the last may be shorter.
pub open spec fn is_chunks(r: Seq<(usize, usize)>, n: int, size: int) -> bool {
    &&& n == 0 <==> r.len() == 0
    &&& r.len() * size >= n
    &&& n > 0 ==> (r.len() - 1) * size < n
    &&& forall|i: int| 0 <= i < r.len() ==> ((#[trigger] r[i]).0 as int, r[i].1 as int) == chunk(n, size, i)
}

/// Splits `n` items into chunks of `size`.
pub fn chunks(n: usize, size: usize) -> (r: Vec<(usize, usize)>)
    requires
        size > 0,
    ensures
        is_chunks(r@, n as int, size as int),
{
    let mut r: Vec<(usize, usize)> = Vec::new();
    let mut lo: usize = 0;
    while lo < n
        invariant
            size > 0,
            lo <= n,
            lo == (if r.len() * size < n {
                r.len() * size
            } else {
                n as int
            }),
            r.len() > 0 ==> (r.len() - 1) * size < n,
            r.len() == 0 ==> lo == 0,
            lo == 0 ==> r.len() == 0,
            forall|i: int| 0 <= i < r.len() ==> ((#[trigger] r[i]).0 as int, r[i].1 as int) == chunk(
                n as int,
                size as int,
                i,
            ),
        decreases n - lo,
    {
        let ghost k = r.len() as int;
        assert(lo == k * size);
        assert((k + 1) * size == k * size + size) by (nonlinear_arith);
        let hi: usize = if n - lo <= size {
            n
        } else {
            lo + size
        };
        r.push((lo, hi));
        lo = hi;
    }
    r
}

/// Every item lies in exactly one chunk, and no chunk is empty or too long.
pub proof fn law_chunks_partition(r: Seq<(usize, usize)>, n: int, size: int, x: int)
    requires
        size > 0,
        is_chunks(r, n, size),
        0 <= x < n,
    ensures
        0 <= x / size < r.len(),
        r[x / size].0 <= x < r[x / size].1,
        r[x / size].1 - r[x / size].0 <= size,
        forall|i: int| 0 <= i < r.len() && (#[trigger] r[i]).0 <= x < r[i].1 ==> i == x / size,
{
    let q = x / size;
    vstd::arithmetic::div_mod::lemma_fundamental_div_mod(x, size);
    assert(x == size * q + x % size);
    vstd::arithmetic::div_mod::lemma_div_pos_is_pos(x, size);
    assert(q * size <= x && x < (q + 1) * size && (q + 1) * size == q * size + size)
        by (nonlinear_arith)
        requires
            x == size * q + x % size,
            0 <= x % size < size,
    ;
    assert(q < r.len()) by (nonlinear_arith)
        requires
            q * size <= x,
            x < n,
            r.len() * size >= n,
            size > 0,
    ;
    assert forall|i: int| 0 <= i < r.len() && (#[trigger] r[i]).0 <= x < r[i].1 implies i == q by {
        assert(i * size <= x && x < (i + 1) * size);
        assert(i == q) by (nonlinear_arith)
            requires
                i * size <= x,
                x < (i + 1) * size,
                q * size <= x,
                x < (q + 1) * size,
                size > 0,
        ;
    }
}

/// The chunks lie end to end from 0 to `n`, each of exactly `size` items but the last,
/// which has at least one and at most `size`.
pub proof fn law_chunks_are_full_but_the_last(r: Seq<(usize, usize)>, n: int, size: int, i: int)
    requires
        size > 0,
        is_chunks(r, n, size),
        0 <= i < r.len(),
    ensures
        r[0].0 == 0,
        r.last().1 == n,
        i + 1 < r.len() ==> r[i].1 - r[i].0 == size && r[i + 1].0 == r[i].1,
        i + 1 == r.len() ==> 0 < r[i].1 - r[i].0 <= size,
{
    let last = r.len() - 1;
    assert((last + 1) * size == last * size + size) by (nonlinear_arith);
    assert((i + 1) * size == i * size + size) by (nonlinear_arith);
    assert(0 * size == 0);
    assert(r[0].0 as int == chunk(n, size, 0).0);
    assert(r.last() == r[last]);
    if i < last {
        assert((i + 1) * size <= last * size) by (nonlinear_arith)
            requires
                i + 1 <= last,
                size > 0,
        ;
        assert(r[i + 1].0 as int == chunk(n, size, i + 1).0);
    }
}

} // verus!
