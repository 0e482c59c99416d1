//! Layout of the fused gate/up matrix of an expert.
use vstd::prelude::*;

verus! {

/// Row `r` of an `[_, width]` row-major matrix.
pub open spec fn row_of<T>(m: Seq<T>, width: int, r: int) -> Seq<T> {
    m.subrange(r * width, (r + 1) * width)
}

/// The rows `first`, `first + 2`, ... of a matrix, `count` of them, joined.
pub open spec fn every_other_row<T>(m: Seq<T>, width: int, first: int, count: nat) -> Seq<T>
    decreases count,
{
    if count == 0 {
        Seq::empty()
    } else {
        every_other_row(m, width, first, (count - 1) as nat) + row_of(
            m,
            width,
            first + 2 * (count - 1),
        )
    }
}

/// Splits an interleaved `[2 * inter, hidden]` matrix into its gate rows (the even
/// ones) and its up rows (the odd ones).
pub fn deinterleave_w13<T: Copy>(w13: &[T], inter: usize, hidden: usize) -> (r: (Vec<T>, Vec<T>))
    requires
        w13.len() == 2 * inter * hidden,
        hidden > 0,
    ensures
        r.0@ =~= every_other_row(w13@, hidden as int, 0, inter as nat),
        r.1@ =~= every_other_row(w13@, hidden as int, 1, inter as nat),
{
    let mut gate: Vec<T> = Vec::new();
    let mut up: Vec<T> = Vec::new();
    let mut i: usize = 0;
    let mut base: usize = 0;
    while i < inter
        invariant
            i <= inter,
            hidden > 0,
            w13.len() == 2 * inter * hidden,
            base == 2 * i * hidden,
            gate@ =~= every_other_row(w13@, hidden as int, 0, i as nat),
            up@ =~= every_other_row(w13@, hidden as int, 1, i as nat),
        decreases inter - i,
    {
        assert(2 * i * hidden + 2 * hidden == 2 * (i + 1) * hidden && 2 * (i + 1) * hidden <= 2
            * inter * hidden) by (nonlinear_arith)
            requires
                i < inter,
        ;
        assert((2 * i) * hidden == base && (2 * i + 1) * hidden == base + hidden && (2 * i + 2)
            * hidden == base + 2 * hidden) by (nonlinear_arith)
            requires
                base == 2 * i * hidden,
        ;
        copy_row(w13, base, hidden, &mut gate);
        copy_row(w13, base + hidden, hidden, &mut up);
        base = base + hidden + hidden;
        i += 1;
    }
    (gate, up)
}

/// Appends `len` elements from `from` on.
fn copy_row<T: Copy>(m: &[T], from: usize, len: usize, out: &mut Vec<T>)
    requires
        from + len <= m.len(),
    ensures
        final(out)@ =~= old(out)@ + m@.subrange(from as int, from + len),
{
    let ghost start = out@;
    let mut j: usize = 0;
    while j < len
        invariant
            j <= len,
            from + len <= m.len(),
            out@ =~= start + m@.subrange(from as int, from + j),
        decreases len - j,
    {
        out.push(m[from + j]);
        j += 1;
    }
}

proof fn lemma_other_row_len<T>(m: Seq<T>, width: int, first: int, count: nat)
    requires
        width > 0,
        0 <= first <= 1,
        m.len() >= 2 * count * width,
    ensures
        every_other_row(m, width, first, count).len() == count * width,
    decreases count,
{
    if count > 0 {
        let c = (count - 1) as nat;
        assert(2 * c * width + 2 * width == 2 * count * width && count * width == c * width + width)
            by (nonlinear_arith)
            requires
                count == c + 1,
        ;
        lemma_other_row_len(m, width, first, c);
        assert((first + 2 * c) * width >= 0 && (first + 2 * c + 1) * width == (first + 2 * c)
            * width + width && (first + 2 * c + 1) * width <= 2 * count * width)
            by (nonlinear_arith)
            requires
                0 <= first <= 1,
                width > 0,
                count == c + 1,
        ;
    } else {
        assert(count * width == 0) by (nonlinear_arith)
            requires
                count == 0,
        ;
    }
}

/// Row `i` of the first half is row `2 * i` of the fused matrix, and row `i` of the
/// second half is row `2 * i + 1`.
pub proof fn law_rows_come_from_their_place<T>(
    m: Seq<T>,
    width: int,
    first: int,
    count: nat,
    i: int,
)
    requires
        width > 0,
        0 <= first <= 1,
        m.len() == 2 * count * width,
        0 <= i < count,
    ensures
        row_of(every_other_row(m, width, first, count), width, i) =~= row_of(
            m,
            width,
            first + 2 * i,
        ),
{
    lemma_row_place(m, width, first, count, i);
}

proof fn lemma_row_place<T>(m: Seq<T>, width: int, first: int, count: nat, i: int)
    requires
        width > 0,
        0 <= first <= 1,
        m.len() >= 2 * count * width,
        0 <= i < count,
    ensures
        row_of(every_other_row(m, width, first, count), width, i) =~= row_of(
            m,
            width,
            first + 2 * i,
        ),
    decreases count,
{
    let c = (count - 1) as nat;
    assert(2 * c * width + 2 * width == 2 * count * width && i * width + width == (i + 1) * width
        && i * width >= 0) by (nonlinear_arith)
        requires
            count == c + 1,
            i >= 0,
            width > 0,
    ;
    lemma_other_row_len(m, width, first, c);
    let head = every_other_row(m, width, first, c);
    let whole = every_other_row(m, width, first, count);
    assert((first + 2 * c) * width >= 0 && (first + 2 * c + 1) * width == (first + 2 * c) * width
        + width && (first + 2 * c + 1) * width <= 2 * count * width) by (nonlinear_arith)
        requires
            0 <= first <= 1,
            width > 0,
            count == c + 1,
    ;
    if i < c {
        assert((i + 1) * width <= c * width) by (nonlinear_arith)
            requires
                i + 1 <= c,
                width > 0,
        ;
        lemma_row_place(m, width, first, c, i);
        assert(row_of(whole, width, i) =~= row_of(head, width, i));
    } else {
        assert(row_of(whole, width, i) =~= row_of(m, width, first + 2 * i));
    }
}

/// Value `c` of row `r` is value `r * width + c` of the matrix.
pub proof fn law_rows_are_cut_side_by_side<T>(m: Seq<T>, width: int, r: int, c: int)
    requires
        0 <= r,
        0 <= c < width,
        (r + 1) * width <= m.len(),
    ensures
        row_of(m, width, r).len() == width,
        row_of(m, width, r)[c] == m[r * width + c],
{
    assert((r + 1) * width == r * width + width && r * width >= 0) by (nonlinear_arith)
        requires
            0 <= r,
            0 < width,
    ;
}

} // verus!
