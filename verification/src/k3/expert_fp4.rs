//! Packed four-bit expert weights: layout and decoding.
//!
//! A section of `[out, in]` weights holds their nibbles, two per byte with the even
//! column in the low half, followed by one shared exponent byte per 32 columns of a
//! row. An expert is three sections: gate and up, both `[inter, dim]`, then down,
//! `[dim, inter]`.
use vstd::prelude::*;

verus! {

/// Weights per shared exponent.
pub const GROUP: usize = 32;

/// Bytes of a section.
pub open spec fn section_size(out_dim: int, in_dim: int) -> int {
    out_dim * in_dim / 2 + out_dim * (in_dim / 32)
}

/// Bytes of an expert.
pub open spec fn expert_size(dim: int, inter: int) -> int {
    2 * section_size(inter, dim) + section_size(dim, inter)
}

pub proof fn lemma_section(out_dim: int, in_dim: int)
    requires
        0 <= out_dim,
        0 <= in_dim,
    ensures
        0 <= out_dim * in_dim,
        0 <= out_dim * (in_dim / 32) <= out_dim * in_dim / 32,
        0 <= section_size(out_dim, in_dim) <= out_dim * in_dim,
{
    let g = in_dim / 32;
    assert(0 <= out_dim * in_dim) by (nonlinear_arith)
        requires
            0 <= out_dim,
            0 <= in_dim,
    ;
    assert(0 <= out_dim * g && 32 * (out_dim * g) <= out_dim * in_dim) by (nonlinear_arith)
        requires
            0 <= out_dim,
            0 <= g,
            32 * g <= in_dim,
    ;
}

/// Byte size of one packed section.
pub fn section_bytes(out_dim: usize, in_dim: usize) -> (n: usize)
    requires
        out_dim * in_dim <= usize::MAX,
    ensures
        n == section_size(out_dim as int, in_dim as int),
{
    proof {
        lemma_section(out_dim as int, in_dim as int);
    }
    out_dim * in_dim / 2 + out_dim * (in_dim / GROUP)
}

/// Byte size of one expert.
pub fn expert_bytes(dim: usize, inter: usize) -> (n: usize)
    requires
        dim * inter <= usize::MAX,
        expert_size(dim as int, inter as int) <= usize::MAX,
    ensures
        n == expert_size(dim as int, inter as int),
{
    proof {
        lemma_section(dim as int, inter as int);
        lemma_section(inter as int, dim as int);
        assert(inter * dim == dim * inter) by (nonlinear_arith);
    }
    2 * section_bytes(inter, dim) + section_bytes(dim, inter)
}

/// Twice the value of a nibble: the magnitudes are 0, 0.5, 1, 1.5, 2, 3, 4 and 6,
/// and the highest bit is the sign.
pub open spec fn doubled_value(n: u8) -> int {
    let m: int = match n % 8 {
        0 => 0,
        1 => 1,
        2 => 2,
        3 => 3,
        4 => 4,
        5 => 6,
        6 => 8,
        _ => 12,
    };
    if n % 16 >= 8 {
        -m
    } else {
        m
    }
}

/// Twice the value of a nibble, a whole number.
pub fn doubled_nibble(n: u8) -> (v: i8)
    ensures
        v == doubled_value(n),
{
    let m: i8 = match n % 8 {
        0 => 0,
        1 => 1,
        2 => 2,
        3 => 3,
        4 => 4,
        5 => 6,
        6 => 8,
        _ => 12,
    };
    if n % 16 >= 8 {
        -m
    } else {
        m
    }
}

/// The single-precision bits of a nibble's magnitude.
pub open spec fn magnitude_bits(n: u8) -> u32 {
    match n % 8 {
        0 => 0u32,
        1 => 0x3f00_0000u32,
        2 => 0x3f80_0000u32,
        3 => 0x3fc0_0000u32,
        4 => 0x4000_0000u32,
        5 => 0x4040_0000u32,
        6 => 0x4080_0000u32,
        _ => 0x40c0_0000u32,
    }
}

/// Decodes a nibble to single-precision bits.
pub fn decode_nibble(n: u8) -> (b: u32)
    ensures
        b == if n % 16 >= 8 {
            0x8000_0000 + magnitude_bits(n)
        } else {
            magnitude_bits(n) as int
        },
{
    let m: u32 = match n % 8 {
        0 => 0,
        1 => 0x3f00_0000,
        2 => 0x3f80_0000,
        3 => 0x3fc0_0000,
        4 => 0x4000_0000,
        5 => 0x4040_0000,
        6 => 0x4080_0000,
        _ => 0x40c0_0000,
    };
    if n % 16 >= 8 {
        0x8000_0000 + m
    } else {
        m
    }
}

/// The single-precision bits of a shared exponent, `2^(b - 127)`. The smallest one
/// is subnormal.
pub fn e8m0_to_f32(b: u8) -> (bits: u32)
    ensures
        bits == if b == 0 {
            0x40_0000int
        } else {
            b * 0x80_0000
        },
{
    if b == 0 {
        0x40_0000
    } else {
        b as u32 * 0x80_0000
    }
}

/// Where a row's nibbles and exponents stand in a section: start and length of each.
pub open spec fn row_parts(row: int, out_dim: int, in_dim: int) -> ((int, int), (int, int)) {
    (
        (row * (in_dim / 2), in_dim / 2),
        (out_dim * in_dim / 2 + row * (in_dim / 32), in_dim / 32),
    )
}

pub proof fn lemma_row_parts(row: int, out_dim: int, in_dim: int)
    requires
        0 <= row < out_dim,
        0 <= in_dim,
    ensures
        ({
            let ((n0, nl), (s0, sl)) = row_parts(row, out_dim, in_dim);
            &&& 0 <= n0
            &&& n0 + nl <= out_dim * in_dim / 2
            &&& out_dim * in_dim / 2 <= s0
            &&& s0 + sl <= section_size(out_dim, in_dim)
        }),
{
    let h = in_dim / 2;
    let g = in_dim / 32;
    lemma_section(out_dim, in_dim);
    assert(0 <= row * h && row * h + h <= out_dim * h && 2 * (out_dim * h) <= out_dim * in_dim && 0
        <= row * g && row * g + g <= out_dim * g) by (nonlinear_arith)
        requires
            0 <= row < out_dim,
            0 <= h,
            2 * h <= in_dim,
            0 <= g,
    ;
}

/// Where a row's nibbles and exponents stand in a section.
pub fn row_places(row: usize, out_dim: usize, in_dim: usize) -> (r: ((usize, usize), (usize, usize)))
    requires
        out_dim * in_dim <= usize::MAX,
        section_size(out_dim as int, in_dim as int) <= usize::MAX,
        row < out_dim,
    ensures
        ({
            let ((n0, nl), (s0, sl)) = row_parts(row as int, out_dim as int, in_dim as int);
            &&& (r.0).0 == n0
            &&& (r.0).1 == nl
            &&& (r.1).0 == s0
            &&& (r.1).1 == sl
            &&& s0 + sl <= section_size(out_dim as int, in_dim as int)
        }),
{
    proof {
        lemma_row_parts(row as int, out_dim as int, in_dim as int);
    }
    let nibbles: usize = out_dim * in_dim / 2;
    ((row * (in_dim / 2), in_dim / 2), (nibbles + row * (in_dim / 32), in_dim / 32))
}

/// One packed weight: its nibble and the shared exponent of its group.
#[derive(Clone, Copy, PartialEq, Eq, Structural, Debug)]
pub struct PackedWeight {
    pub nibble: u8,
    pub exponent: u8,
}

/// The weight in row `o` and column `c`.
pub open spec fn weight_of(
    data: Seq<u8>,
    out_dim: int,
    in_dim: int,
    o: int,
    c: int,
) -> PackedWeight {
    let ((n0, _), (s0, _)) = row_parts(o, out_dim, in_dim);
    let byte = data[n0 + c / 2];
    PackedWeight {
        nibble: if c % 2 == 0 {
            byte % 16
        } else {
            byte / 16
        },
        exponent: data[s0 + c / 32],
    }
}

/// Reads one weight of a section whose rows are whole groups.
pub fn weight_at(data: &[u8], out_dim: usize, in_dim: usize, o: usize, c: usize) -> (w: PackedWeight)
    requires
        out_dim * in_dim <= usize::MAX,
        in_dim % 32 == 0,
        data.len() == section_size(out_dim as int, in_dim as int),
        o < out_dim,
        c < in_dim,
    ensures
        w == weight_of(data@, out_dim as int, in_dim as int, o as int, c as int),
{
    proof {
        lemma_section(out_dim as int, in_dim as int);
        lemma_row_parts(o as int, out_dim as int, in_dim as int);
    }
    let nibbles: usize = out_dim * in_dim / 2;
    let byte: u8 = data[o * (in_dim / 2) + c / 2];
    let exponent: u8 = data[nibbles + o * (in_dim / 32) + c / 32];
    let nibble: u8 = if c % 2 == 0 {
        byte % 16
    } else {
        byte / 16
    };
    PackedWeight { nibble, exponent }
}

/// Unpacks a section row by row.
pub fn dequant_section(data: &[u8], out_dim: usize, in_dim: usize) -> (w: Vec<PackedWeight>)
    requires
        out_dim * in_dim <= usize::MAX,
        in_dim % 32 == 0,
        data.len() == section_size(out_dim as int, in_dim as int),
    ensures
        w.len() == out_dim * in_dim,
        forall|o: int, c: int|
            0 <= o < out_dim && 0 <= c < in_dim ==> w@[#[trigger] at(o, in_dim as int, c)]
                == weight_of(data@, out_dim as int, in_dim as int, o, c),
{
    let mut w: Vec<PackedWeight> = Vec::new();
    let mut o: usize = 0;
    while o < out_dim
        invariant
            out_dim * in_dim <= usize::MAX,
            in_dim % 32 == 0,
            data.len() == section_size(out_dim as int, in_dim as int),
            o <= out_dim,
            w.len() == o * in_dim,
            forall|r: int, c: int|
                0 <= r < o && 0 <= c < in_dim ==> w@[#[trigger] at(r, in_dim as int, c)]
                    == weight_of(data@, out_dim as int, in_dim as int, r, c),
        decreases out_dim - o,
    {
        let mut c: usize = 0;
        while c < in_dim
            invariant
                out_dim * in_dim <= usize::MAX,
                in_dim % 32 == 0,
                data.len() == section_size(out_dim as int, in_dim as int),
                o < out_dim,
                c <= in_dim,
                w.len() == o * in_dim + c,
                forall|r: int, x: int|
                    0 <= r < o && 0 <= x < in_dim ==> w@[#[trigger] at(r, in_dim as int, x)]
                        == weight_of(data@, out_dim as int, in_dim as int, r, x),
                forall|x: int|
                    0 <= x < c ==> w@[#[trigger] at(o as int, in_dim as int, x)] == weight_of(
                        data@,
                        out_dim as int,
                        in_dim as int,
                        o as int,
                        x,
                    ),
            decreases in_dim - c,
        {
            proof {
                assert forall|r: int, x: int| 0 <= r < o && 0 <= x < in_dim implies #[trigger] at(
                    r,
                    in_dim as int,
                    x,
                ) < o * in_dim by {
                    assert(r * in_dim + x < o * in_dim) by (nonlinear_arith)
                        requires
                            r + 1 <= o,
                            x < in_dim,
                    ;
                }
            }
            w.push(weight_at(data, out_dim, in_dim, o, c));
            c += 1;
        }
        assert((o + 1) * in_dim == o * in_dim + in_dim) by (nonlinear_arith);
        o += 1;
    }
    w
}

/// Place `c` of row `r` in rows of `width`.
pub open spec fn at(r: int, width: int, c: int) -> int {
    r * width + c
}

/// Twice the magnitude that single-precision bits stand for, for zero and for the powers of
/// two from a half to four with their fractions, where that is a whole number.
pub open spec fn doubled_magnitude(bits: u32) -> int {
    let unit = 0x80_0000int;
    let fraction = unit + bits as int % unit;
    if bits == 0 {
        0
    } else if bits as int / unit == 126 {
        fraction / unit
    } else if bits as int / unit == 127 {
        2 * fraction / unit
    } else if bits as int / unit == 128 {
        4 * fraction / unit
    } else {
        8 * fraction / unit
    }
}

/// The whole number that stands for a nibble is exactly twice its decoded value.
pub proof fn law_the_table_is_exact(n: u8)
    ensures
        doubled_value(n) == if n % 16 >= 8 {
            -doubled_magnitude(magnitude_bits(n))
        } else {
            doubled_magnitude(magnitude_bits(n))
        },
{
}

/// Nibbles that differ in their sign alone stand for opposite numbers.
pub proof fn law_sign_is_the_highest_bit(n: u8)
    requires
        n < 8,
    ensures
        doubled_value((n + 8) as u8) == -doubled_value(n),
        doubled_value(n) >= 0,
{
}

/// A section takes 17 bytes for every 32 weights, 16 of nibbles and one exponent, and an
/// expert three such sections.
pub proof fn law_seventeen_bytes_for_32_weights(dim: int, inter: int)
    requires
        0 <= dim,
        0 <= inter,
        dim % 32 == 0,
        inter % 32 == 0,
    ensures
        32 * section_size(inter, dim) == 17 * (inter * dim),
        32 * expert_size(dim, inter) == 51 * (inter * dim),
{
    lemma_section_of_groups(inter, dim);
    lemma_section_of_groups(dim, inter);
    assert(dim * inter == inter * dim) by (nonlinear_arith);
}

proof fn lemma_section_of_groups(out_dim: int, in_dim: int)
    requires
        0 <= out_dim,
        0 <= in_dim,
        in_dim % 32 == 0,
    ensures
        32 * section_size(out_dim, in_dim) == 17 * (out_dim * in_dim),
{
    let g = in_dim / 32;
    assert(out_dim * in_dim == 32 * (out_dim * g)) by (nonlinear_arith)
        requires
            in_dim == 32 * g,
    ;
}

/// A nibble is a sign, two exponent bits and one digit: below exponent 1 it counts
/// halves, and each exponent more doubles one or one and a half.
pub proof fn law_nibbles_are_small_floats(n: u8)
    requires
        n < 16,
    ensures
        ({
            let m: int = if n >= 8 {
                n - 8
            } else {
                n as int
            };
            let v: int = if n >= 8 {
                -doubled_value(n)
            } else {
                doubled_value(n)
            };
            &&& m / 2 == 0 ==> v == m % 2
            &&& m / 2 == 1 ==> v == 2 + m % 2
            &&& m / 2 == 2 ==> v == 2 * (2 + m % 2)
            &&& m / 2 == 3 ==> v == 4 * (2 + m % 2)
            // The bits of the value: its exponent, and its one digit below it.
            &&& m == 0 ==> magnitude_bits(n) == 0
            &&& m == 1 ==> magnitude_bits(n) == 126 * 0x80_0000
            &&& m >= 2 ==> magnitude_bits(n) == (126 + m / 2) * 0x80_0000 + (m % 2) * 0x40_0000
        }),
{
}

/// The nibbles of the rows lie end to end from the start of the section; behind all of
/// them lie the exponents, row by row.
pub proof fn law_rows_lie_end_to_end(row: int, out_dim: int, in_dim: int)
    requires
        0 <= out_dim,
        0 <= in_dim,
        in_dim % 32 == 0,
    ensures
        row_parts(0, out_dim, in_dim).0 == (0int, in_dim / 2),
        row_parts(0, out_dim, in_dim).1 == (row_parts(out_dim, out_dim, in_dim).0.0, in_dim / 32),
        row_parts(row + 1, out_dim, in_dim).0.0 == row_parts(row, out_dim, in_dim).0.0 + in_dim / 2,
        row_parts(row + 1, out_dim, in_dim).1.0 == row_parts(row, out_dim, in_dim).1.0 + in_dim
            / 32,
        row_parts(row, out_dim, in_dim).0.1 == in_dim / 2,
        row_parts(row, out_dim, in_dim).1.1 == in_dim / 32,
{
    let h = in_dim / 2;
    let g = in_dim / 32;
    assert((row + 1) * h == row * h + h && (row + 1) * g == row * g + g && 0 * h == 0 && 0 * g == 0)
        by (nonlinear_arith);
    assert(out_dim * in_dim == 2 * (out_dim * h)) by (nonlinear_arith)
        requires
            in_dim == 2 * h,
    ;
}

/// Two columns share a byte, the even one its lower half; 32 columns share an exponent.
pub proof fn law_weights_by_row_and_column(
    data: Seq<u8>,
    out_dim: int,
    in_dim: int,
    o: int,
    c: int,
)
    requires
        0 <= c,
    ensures
        ({
            let w = weight_of(data, out_dim, in_dim, o, c);
            let byte = data[o * (in_dim / 2) + c / 2];
            &&& c % 2 == 0 ==> w.nibble == byte % 16
            &&& c % 2 == 1 ==> w.nibble == byte / 16
            &&& w.nibble < 16
            &&& w.exponent == data[out_dim * in_dim / 2 + o * (in_dim / 32) + c / 32]
        }),
{
}

} // verus!
