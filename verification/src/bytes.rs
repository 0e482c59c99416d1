//! Little-endian numbers in byte sequences.
use vstd::prelude::*;

verus! {

/// The number that `n` bytes from `at` on hold.
pub open spec fn number_at(b: Seq<u8>, at: int, n: nat) -> nat
    decreases n,
{
    if n == 0 {
        0
    } else {
        b[at] as nat + 256 * number_at(b, at + 1, (n - 1) as nat)
    }
}

/// The `n` lowest bytes of a number.
pub open spec fn bytes_of(v: nat, n: nat) -> Seq<u8>
    decreases n,
{
    if n == 0 {
        Seq::empty()
    } else {
        seq![(v % 256) as u8] + bytes_of(v / 256, (n - 1) as nat)
    }
}

pub proof fn lemma_bytes_len(v: nat, n: nat)
    ensures
        bytes_of(v, n).len() == n,
    decreases n,
{
    if n > 0 {
        lemma_bytes_len(v / 256, (n - 1) as nat);
    }
}

pub open spec fn pow256(n: nat) -> nat
    decreases n,
{
    if n == 0 {
        1
    } else {
        256 * pow256((n - 1) as nat)
    }
}

/// A number that fits reads back from its bytes.
pub proof fn law_number_reads_back(v: nat, n: nat)
    requires
        v < pow256(n),
    ensures
        number_at(bytes_of(v, n), 0, n) == v,
        bytes_of(v, n).len() == n,
    decreases n,
{
    if n > 0 {
        let rest = bytes_of(v / 256, (n - 1) as nat);
        let all = bytes_of(v, n);
        law_number_reads_back(v / 256, (n - 1) as nat);
        assert(all.subrange(1, n as int) =~= rest.subrange(0, n - 1));
        lemma_shifted(rest, all, 0, 1, (n - 1) as nat);
    }
}

/// Equal bytes hold equal numbers.
pub proof fn lemma_shifted(a: Seq<u8>, b: Seq<u8>, i: int, j: int, n: nat)
    requires
        0 <= i,
        i + n <= a.len(),
        0 <= j,
        j + n <= b.len(),
        a.subrange(i, i + n) =~= b.subrange(j, j + n),
    ensures
        number_at(a, i, n) == number_at(b, j, n),
    decreases n,
{
    if n > 0 {
        let x = a.subrange(i, i + n);
        let y = b.subrange(j, j + n);
        assert(x[0] == a[i] && y[0] == b[j]);
        assert(a.subrange(i + 1, i + n) =~= x.subrange(1, n as int));
        assert(b.subrange(j + 1, j + n) =~= y.subrange(1, n as int));
        lemma_shifted(a, b, i + 1, j + 1, (n - 1) as nat);
    }
}

/// Appends the `n` lowest bytes of a number.
pub fn push_number(out: &mut Vec<u8>, v: u64, n: usize)
    requires
        n <= 8,
    ensures
        final(out)@ =~= old(out)@ + bytes_of(v as nat, n as nat),
{
    let ghost start = out@;
    let mut rest: u64 = v;
    let mut i: usize = 0;
    while i < n
        invariant
            i <= n <= 8,
            out@ + bytes_of(rest as nat, (n - i) as nat) =~= start + bytes_of(v as nat, n as nat),
        decreases n - i,
    {
        let ghost before = out@;
        proof {
            let k = (n - i) as nat;
            assert(bytes_of(rest as nat, k) == seq![(rest as nat % 256) as u8] + bytes_of(
                rest as nat / 256,
                (k - 1) as nat,
            ));
        }
        out.push((rest % 256) as u8);
        rest = rest / 256;
        i += 1;
    }
}

/// The 32-bit words of a byte sequence, the lowest byte first.
pub open spec fn words_of(b: Seq<u8>) -> Seq<u32> {
    Seq::new(b.len() / 4, |i: int| number_at(b, 4 * i, 4) as u32)
}

/// The 32-bit words of a byte sequence; bytes of an incomplete last word are left
/// out.
pub fn words(b: &[u8]) -> (r: Vec<u32>)
    ensures
        r@ == words_of(b@),
        r.len() == b.len() / 4,
        forall|i: int| 0 <= i < r.len() ==> #[trigger] r[i] == number_at(b@, 4 * i, 4),
{
    let mut r: Vec<u32> = Vec::new();
    let n: usize = b.len() / 4;
    let mut i: usize = 0;
    while i < n
        invariant
            n == b.len() / 4,
            i <= n,
            r.len() == i,
            forall|x: int| 0 <= x < i ==> #[trigger] r[x] == number_at(b@, 4 * x, 4),
        decreases n - i,
    {
        let at: usize = 4 * i;
        let w: u32 = b[at] as u32 + 256 * (b[at + 1] as u32) + 65536 * (b[at + 2] as u32) + 16777216
            * (b[at + 3] as u32);
        proof {
            reveal_with_fuel(number_at, 5);
        }
        r.push(w);
        i += 1;
    }
    r
}

/// A number stands with its lowest byte first.
pub proof fn law_lowest_byte_first(b: Seq<u8>, at: int)
    ensures
        number_at(b, at, 1) == b[at],
        number_at(b, at, 2) == b[at] + 256 * b[at + 1],
        number_at(b, at, 4) == b[at] + 256 * b[at + 1] + 0x1_0000 * b[at + 2] + 0x100_0000 * b[at
            + 3],
        number_at(b, at, 8) == b[at] + 256 * b[at + 1] + 0x1_0000 * b[at + 2] + 0x100_0000 * b[at
            + 3] + 0x1_0000_0000 * b[at + 4] + 0x100_0000_0000 * b[at + 5] + 0x1_0000_0000_0000
            * b[at + 6] + 0x100_0000_0000_0000 * b[at + 7],
{
    reveal_with_fuel(number_at, 9);
}

/// Byte `i` of a number is its digit of weight 256 to the power of `i`.
pub proof fn law_bytes_are_digits(v: nat, n: nat, i: int)
    requires
        0 <= i < n,
    ensures
        bytes_of(v, n).len() == n,
        i == 0 ==> bytes_of(v, n)[i] == v % 256,
        i > 0 ==> bytes_of(v, n)[i] == bytes_of(v / 256, (n - 1) as nat)[i - 1],
{
    lemma_bytes_len(v, n);
}

/// The bytes of a number of two bytes, and of one of four.
pub proof fn law_bytes_of_short_numbers(v: nat)
    ensures
        bytes_of(v, 2) =~= seq![(v % 256) as u8, (v / 256 % 256) as u8],
        bytes_of(v, 4) =~= seq![
            (v % 256) as u8,
            (v / 256 % 256) as u8,
            (v / 0x1_0000 % 256) as u8,
            (v / 0x100_0000 % 256) as u8,
        ],
{
    reveal_with_fuel(bytes_of, 5);
    assert(v / 256 / 256 == v / 0x1_0000);
    assert(v / 256 / 256 / 256 == v / 0x100_0000);
}

/// Word `i` is made of the bytes `4 * i` to `4 * i + 3`, the lowest first.
pub proof fn law_words_lie_side_by_side(b: Seq<u8>, i: int)
    requires
        0 <= i < words_of(b).len(),
    ensures
        4 * words_of(b).len() <= b.len() < 4 * words_of(b).len() + 4,
        words_of(b)[i] == b[4 * i] + 256 * b[4 * i + 1] + 0x1_0000 * b[4 * i + 2] + 0x100_0000 * b[4
            * i + 3],
{
    law_lowest_byte_first(b, 4 * i);
}

} // verus!
