//! The fused device backend: one compiled model per layer serves a whole
//! mixture-of-experts call.
//!
//! This module holds the rules around the device: which shapes calls are padded
//! to, which layers take the decode kernels, how a call's outcome is judged, which
//! layers are given up, and what is counted.
use vstd::prelude::*;

use crate::bytes::{self, words};
use crate::float_bits::{self, magnitude_of, INFINITY, SIGN};
use crate::id_set::IdSet;
use crate::text::{
    self, chars_of, contains_char, contains_text, is_word, numbers_listed, parse_usize,
    parse_within, same_text, split_at_each, split_lines, text_of, trim, write_decimal,
};

verus! {

/// Bits of 1.0.
pub const ONE: u32 = 0x3f80_0000;

/// Patterns per power of two.
pub const OCTAVE: u32 = 0x0080_0000;

// -------------------------------------------------------------------- settings

/// Whether a setting's trimmed text is `1`.
pub fn ov_perf(setting: Option<&str>) -> (on: bool)
    ensures
        on == (setting matches Some(s) && text::trimmed(s@) == "1"@),
{
    match setting {
        None => false,
        Some(s) => {
            let v: Vec<char> = chars_of(s);
            let t: String = text_of(trim(v.as_slice()).as_slice());
            same_text(t.as_str(), "1")
        },
    }
}

/// On unless a setting's trimmed text is `0`.
pub fn weight_rescale(setting: Option<&str>) -> (on: bool)
    ensures
        on == (setting matches Some(s) ==> text::trimmed(s@) != "0"@),
{
    match setting {
        None => true,
        Some(s) => {
            let v: Vec<char> = chars_of(s);
            let t: String = text_of(trim(v.as_slice()).as_slice());
            !same_text(t.as_str(), "0")
        },
    }
}

/// The folder of layers for the decode kernels: a trimmed name that is not empty
/// and leads nowhere else.
pub fn decode_dir_name(setting: Option<&str>) -> (name: Option<String>)
    ensures
        name is Some <==> (setting matches Some(s) && text::trimmed(s@).len() > 0
            && !text::trimmed(s@).contains('/') && !text::holds_text(text::trimmed(s@), ".."@)),
        name matches Some(n) ==> n@ == text::trimmed(setting->0@),
{
    match setting {
        None => None,
        Some(s) => {
            let v: Vec<char> = chars_of(s);
            let t: Vec<char> = trim(v.as_slice());
            if t.len() == 0 || contains_char(t.as_slice(), '/') || contains_text(
                t.as_slice(),
                "..",
            ) {
                None
            } else {
                Some(text_of(t.as_slice()))
            }
        },
    }
}

/// The share of experts that the device streams: a trimmed setting that is neither
/// empty nor `0`.
pub fn offload_ratio(setting: Option<&str>) -> (ratio: Option<String>)
    ensures
        ratio is Some <==> (setting matches Some(s) && text::trimmed(s@).len() > 0
            && text::trimmed(s@) != "0"@),
        ratio matches Some(r) ==> r@ == text::trimmed(setting->0@),
{
    match setting {
        None => None,
        Some(s) => {
            let v: Vec<char> = chars_of(s);
            let t: Vec<char> = trim(v.as_slice());
            let name: String = text_of(t.as_slice());
            if t.len() == 0 || same_text(name.as_str(), "0") {
                None
            } else {
                Some(name)
            }
        },
    }
}

/// Which layers take the decode kernels from their ordinary model.
pub struct DecodeLayers {
    pub all: bool,
    pub list: Vec<u64>,
}

/// The text of a setting, trimmed; empty where it is unset.
pub open spec fn trimmed_setting(setting: Option<&str>) -> Seq<char> {
    match setting {
        Some(s) => text::trimmed(s@),
        None => Seq::empty(),
    }
}

/// Reads `all`, or a comma-separated list of layers.
pub fn decode_layer_list(setting: Option<&str>) -> (d: DecodeLayers)
    ensures
        d.all == (text::lower_text(trimmed_setting(setting)) =~= text::lower_text("all"@)),
        d.list.len() == text::numbers_among(
            text::pieces(trimmed_setting(setting), ','),
            u32::MAX as nat,
        ).len(),
        forall|i: int|
            0 <= i < d.list.len() ==> #[trigger] d.list[i] == text::numbers_among(
                text::pieces(trimmed_setting(setting), ','),
                u32::MAX as nat,
            )[i],
{
    let t: Vec<char> = match setting {
        Some(s) => {
            let v: Vec<char> = chars_of(s);
            trim(v.as_slice())
        },
        None => Vec::new(),
    };
    DecodeLayers {
        all: is_word(t.as_slice(), "all"),
        list: numbers_listed(t.as_slice(), u32::MAX as u64),
    }
}

impl DecodeLayers {
    /// The layer takes the decode kernels.
    pub fn decode_layer_listed(&self, lid: u32) -> (b: bool)
        ensures
            b == (self.all || self.list@.contains(lid as u64)),
    {
        if self.all {
            return true;
        }
        let mut i: usize = 0;
        while i < self.list.len()
            invariant
                i <= self.list.len(),
                forall|x: int| 0 <= x < i ==> #[trigger] self.list[x] != lid as u64,
            decreases self.list.len() - i,
        {
            if self.list[i] == lid as u64 {
                assert(self.list@[i as int] == lid as u64);
                return true;
            }
            i += 1;
        }
        false
    }

    /// Some layer takes the decode kernels.
    pub fn decode_layers_configured(&self) -> (b: bool)
        ensures
            b == (self.all || self.list.len() > 0),
    {
        self.all || self.list.len() > 0
    }
}

/// The most rows of a call that the decode kernels take: one where nothing else is
/// set, at least one and at most 32.
pub open spec fn decode_rows_of(setting: Option<&str>) -> int {
    match setting {
        Some(s) => match text::decimal_within(text::trimmed(s@), usize::MAX as nat) {
            Some(n) => if n < 1 {
                1
            } else if n > 32 {
                32
            } else {
                n as int
            },
            None => 1,
        },
        None => 1,
    }
}

pub fn decode_rows(setting: Option<&str>) -> (n: usize)
    ensures
        n == decode_rows_of(setting),
        1 <= n <= 32,
{
    match setting {
        Some(s) => {
            let v: Vec<char> = chars_of(s);
            let t: Vec<char> = trim(v.as_slice());
            match parse_usize(t.as_slice()) {
                Some(n) => if n < 1 {
                    1
                } else if n > 32 {
                    32
                } else {
                    n
                },
                None => 1,
            }
        },
        None => 1,
    }
}

// --------------------------------------------------------------------- buckets

/// Row counts up to 32 that a setting asks for.
pub open spec fn asked_buckets(setting: Option<&str>, b: int) -> bool {
    setting matches Some(s) && 1 <= b <= 32 && text::numbers_among(
        text::pieces(s@, ','),
        usize::MAX as nat,
    ).contains(b as nat)
}

/// A row count that device calls are padded to: those that the setting asks for, or
/// 2, 8, 16 and 24 where it asks for none, and 32 in any case.
pub open spec fn is_bucket(setting: Option<&str>, b: int) -> bool {
    ||| b == 32
    ||| asked_buckets(setting, b)
    ||| (forall|c: int| !#[trigger] asked_buckets(setting, c)) && (b == 2 || b == 8 || b == 16 || b
        == 24)
}

/// Ascending row counts up to 32, the last of them 32.
pub open spec fn buckets_wf(v: Seq<usize>) -> bool {
    &&& v.len() > 0
    &&& v.last() == 32
    &&& forall|i: int, j: int| 0 <= i < j < v.len() ==> (#[trigger] v[i]) < (#[trigger] v[j])
    &&& forall|i: int| 0 <= i < v.len() ==> 1 <= (#[trigger] v[i]) <= 32
}

/// The row counts that device calls are padded to, ascending.
pub fn small_buckets(setting: Option<&str>) -> (v: Vec<usize>)
    ensures
        buckets_wf(v@),
        forall|b: usize| #[trigger] v@.contains(b) <==> is_bucket(setting, b as int),
{
    let asked: Vec<u64> = match setting {
        Some(s) => {
            let t: Vec<char> = chars_of(s);
            numbers_listed(t.as_slice(), usize::MAX as u64)
        },
        None => Vec::new(),
    };
    let mut any: bool = false;
    let mut i: usize = 0;
    while i < asked.len()
        invariant
            i <= asked.len(),
            any == exists|x: int| 0 <= x < i && 1 <= #[trigger] asked[x] <= 32,
        decreases asked.len() - i,
    {
        if 1 <= asked[i] && asked[i] <= 32 {
            any = true;
        }
        i += 1;
    }
    proof {
        assert(any == exists|c: int| #[trigger] asked_buckets(setting, c)) by {
            match setting {
                Some(s) => {
                    let ns = text::numbers_among(text::pieces(s@, ','), usize::MAX as nat);
                    if any {
                        let x = choose|x: int| 0 <= x < asked.len() && 1 <= #[trigger] asked[x] <= 32;
                        assert(ns[x] == asked[x]);
                        assert(asked_buckets(setting, asked[x] as int));
                    }
                    if exists|c: int| #[trigger] asked_buckets(setting, c) {
                        let c = choose|c: int| #[trigger] asked_buckets(setting, c);
                        let x = choose|x: int| 0 <= x < ns.len() && ns[x] == c as nat;
                        assert(asked[x] == c);
                    }
                },
                None => {},
            }
        }
    }
    let mut v: Vec<usize> = Vec::new();
    let mut b: usize = 1;
    while b <= 32
        invariant
            1 <= b <= 33,
            any == exists|c: int| #[trigger] asked_buckets(setting, c),
            setting matches Some(s) ==> {
                let ns = text::numbers_among(text::pieces(s@, ','), usize::MAX as nat);
                asked.len() == ns.len() && forall|x: int|
                    0 <= x < asked.len() ==> #[trigger] asked[x] == ns[x]
            },
            setting is None ==> asked.len() == 0,
            forall|i: int, j: int| 0 <= i < j < v.len() ==> (#[trigger] v[i]) < (#[trigger] v[j]),
            forall|i: int| 0 <= i < v.len() ==> 1 <= (#[trigger] v[i]) < b,
            forall|c: usize|
                #[trigger] v@.contains(c) <==> 1 <= c < b && is_bucket(setting, c as int),
            b == 33 ==> v.len() > 0 && v@.last() == 32,
        decreases 33 - b,
    {
        let wanted: bool = lists(&asked, b as u64);
        proof {
            assert(wanted == asked_buckets(setting, b as int)) by {
                match setting {
                    Some(s) => {
                        let ns = text::numbers_among(text::pieces(s@, ','), usize::MAX as nat);
                        if wanted {
                            let x = choose|x: int| 0 <= x < asked.len() && asked[x] == b as u64;
                            assert(ns[x] == b as nat);
                        }
                        if ns.contains(b as nat) {
                            let x = choose|x: int| 0 <= x < ns.len() && ns[x] == b as nat;
                            assert(asked[x] == b as u64);
                        }
                    },
                    None => {},
                }
            }
        }
        let keep: bool = b == 32 || wanted || (!any && (b == 2 || b == 8 || b == 16 || b == 24));
        let ghost before = v@;
        if keep {
            v.push(b);
        }
        proof {
            assert(keep == is_bucket(setting, b as int));
            assert forall|c: usize| #[trigger] v@.contains(c) <==> 1 <= c < b + 1 && is_bucket(
                setting,
                c as int,
            ) by {
                if before.contains(c) {
                    let x = choose|x: int| 0 <= x < before.len() && before[x] == c;
                    assert(v@[x] == c);
                }
                if keep && c == b {
                    assert(v@[v@.len() - 1] == c);
                }
                if v@.contains(c) && c != b {
                    let x = choose|x: int| 0 <= x < v@.len() && v@[x] == c;
                    assert(before[x] == c);
                }
                if v@.contains(c) && c == b && !keep {
                    assert(before.contains(c));
                }
            }
        }
        b += 1;
    }
    proof {
        assert forall|c: usize| #[trigger] v@.contains(c) <==> is_bucket(setting, c as int) by {}
    }
    v
}

fn lists(v: &Vec<u64>, n: u64) -> (b: bool)
    ensures
        b == v@.contains(n),
{
    let mut i: usize = 0;
    while i < v.len()
        invariant
            i <= v.len(),
            forall|x: int| 0 <= x < i ==> #[trigger] v[x] != n,
        decreases v.len() - i,
    {
        if v[i] == n {
            assert(v@[i as int] == n);
            return true;
        }
        i += 1;
    }
    false
}

/// The first bucket that holds `rows` rows, from place `from` on.
pub open spec fn bucket_from(buckets: Seq<usize>, rows: int, from: int) -> int
    decreases buckets.len() - from,
{
    if from >= buckets.len() {
        32
    } else if buckets[from] >= rows {
        buckets[from] as int
    } else {
        bucket_from(buckets, rows, from + 1)
    }
}

/// The rows that a call of `rows` rows is padded to: a bucket, or a multiple of 32.
pub open spec fn bucket_for(buckets: Seq<usize>, rows: int) -> int {
    if rows > 32 {
        (rows + 31) / 32 * 32
    } else {
        bucket_from(buckets, rows, 0)
    }
}

pub fn bucket_rows(buckets: &[usize], rows: usize) -> (n: usize)
    requires
        buckets_wf(buckets@),
        rows <= usize::MAX - 31,
    ensures
        n == bucket_for(buckets@, rows as int),
        n >= rows,
{
    if rows > 32 {
        return (rows + 31) / 32 * 32;
    }
    let mut i: usize = 0;
    while i < buckets.len()
        invariant
            i <= buckets.len(),
            rows <= 32,
            buckets_wf(buckets@),
            bucket_from(buckets@, rows as int, 0) == bucket_from(buckets@, rows as int, i as int),
        decreases buckets.len() - i,
    {
        if buckets[i] >= rows {
            return buckets[i];
        }
        i += 1;
    }
    32
}

/// A padded call holds its rows, and no smaller bucket would.
pub proof fn law_padding_is_the_smallest_shape(buckets: Seq<usize>, rows: int)
    requires
        buckets_wf(buckets),
        rows >= 0,
    ensures
        bucket_for(buckets, rows) >= rows,
        rows > 32 ==> bucket_for(buckets, rows) % 32 == 0 && bucket_for(buckets, rows) < rows + 32,
        rows <= 32 ==> buckets.contains(bucket_for(buckets, rows) as usize) && forall|i: int|
            0 <= i < buckets.len() && (#[trigger] buckets[i]) >= rows ==> bucket_for(buckets, rows)
                <= buckets[i],
{
    if rows <= 32 {
        lemma_bucket_from(buckets, rows, 0);
    }
}

proof fn lemma_bucket_from(buckets: Seq<usize>, rows: int, from: int)
    requires
        buckets_wf(buckets),
        0 <= rows <= 32,
        0 <= from < buckets.len(),
    ensures
        bucket_from(buckets, rows, from) >= rows,
        bucket_from(buckets, rows, from) <= 32,
        buckets.contains(bucket_from(buckets, rows, from) as usize),
        forall|i: int|
            from <= i < buckets.len() && (#[trigger] buckets[i]) >= rows ==> bucket_from(
                buckets,
                rows,
                from,
            ) <= buckets[i],
    decreases buckets.len() - from,
{
    if buckets[from] >= rows {
        assert(buckets.contains(buckets[from]));
        assert forall|i: int| from <= i < buckets.len() && (#[trigger] buckets[i])
            >= rows implies bucket_from(buckets, rows, from) <= buckets[i] by {
            if from < i {
                assert(buckets[from] < buckets[i]);
            }
        }
    } else {
        assert(from != buckets.len() - 1);
        lemma_bucket_from(buckets, rows, from + 1);
    }
}

// --------------------------------------------------------------------- scaling

/// The smallest power of two that is no less than a value, as bits; one for a value
/// up to one and for anything that is not finite.
pub open spec fn pow2_above(v: u32, r: u32) -> bool {
    if v >= SIGN || v <= ONE || v >= INFINITY {
        r == ONE
    } else {
        r % OCTAVE == 0 && v <= r < v + OCTAVE
    }
}

pub fn pow2_ceil(v: u32) -> (r: u32)
    ensures
        pow2_above(v, r),
{
    if v >= SIGN || v <= ONE || v >= INFINITY {
        return ONE;
    }
    let m: u32 = v % OCTAVE;
    if m == 0 {
        v
    } else {
        v - m + OCTAVE
    }
}

/// The bits of `2^n`.
pub fn scale_bits(n: u64) -> (r: u32)
    requires
        n <= 16,
    ensures
        r == ONE + n * OCTAVE,
{
    ONE + n as u32 * OCTAVE
}

/// The field `key` of a JSON object, where the text is one and the field is an
/// unsigned number.
pub uninterp spec fn json_u64(text: Seq<char>, key: Seq<char>) -> Option<u64>;

/// Reads one unsigned field of a JSON object: `serde_json::from_str` into a
/// `serde_json::Value`, then `Value::get` and `Value::as_u64`. Nothing where the
/// text is no JSON, the value is no object, the field is missing or it is no
/// unsigned number.
#[verifier::external_body]
fn json_field(text: &str, key: &str) -> (r: Option<u64>)
    ensures
        r == json_u64(text@, key@),
{
    serde_json::from_str::<serde_json::Value>(text).ok()?.get(key)?.as_u64()
}

/// The exponent of a layer's output scale from its field: at most 16, else zero.
pub open spec fn scale_exponent(field: Option<u64>) -> u64 {
    match field {
        Some(n) if n <= 16 => n,
        _ => 0,
    }
}

/// The exponent that a field asks for.
pub fn exponent_of(field: Option<u64>) -> (n: u64)
    ensures
        n == scale_exponent(field),
        n <= 16,
{
    match field {
        Some(n) => if n <= 16 {
            n
        } else {
            0
        },
        None => 0,
    }
}

/// The exponent that a layer's description asks for; zero without one.
pub open spec fn described_exponent(description: Option<&str>) -> u64 {
    match description {
        Some(t) => scale_exponent(json_u64(t@, "up_scale_exponent"@)),
        None => 0,
    }
}

pub fn up_scale_exponent(description: Option<&str>) -> (n: u64)
    ensures
        n == described_exponent(description),
        n <= 16,
{
    match description {
        Some(t) => exponent_of(json_field(t, "up_scale_exponent")),
        None => 0,
    }
}

// --------------------------------------------------------------------- profiles

/// The time of one profile line: its fourth tab-separated field, where that is a
/// number.
pub open spec fn line_time(line: Seq<char>) -> nat {
    let f = text::pieces(line, '\t');
    if f.len() > 3 {
        match text::decimal_within(f[3], u64::MAX as nat) {
            Some(n) => n,
            None => 0,
        }
    } else {
        0
    }
}

/// The time of some profile lines.
pub open spec fn lines_time(lines: Seq<Seq<char>>) -> nat
    decreases lines.len(),
{
    if lines.len() == 0 {
        0
    } else {
        lines_time(lines.drop_last()) + line_time(lines.last())
    }
}

/// The device time of a profile in nanoseconds, its lines being in microseconds;
/// nothing where it does not fit.
pub fn device_ns(profile: &str) -> (ns: Option<u64>)
    ensures
        ns is Some <==> lines_time(text::line_pieces(profile@)) * 1000 <= u64::MAX,
        ns matches Some(n) ==> n == lines_time(text::line_pieces(profile@)) * 1000,
{
    let v: Vec<char> = chars_of(profile);
    let lines: Vec<Vec<char>> = split_lines(v.as_slice());
    let ghost all = text::line_pieces(profile@);
    let mut us: u128 = 0;
    let mut i: usize = 0;
    proof {
        assert(all.take(0) =~= Seq::<Seq<char>>::empty());
    }
    while i < lines.len()
        invariant
            i <= lines.len(),
            lines.len() == all.len(),
            forall|x: int| 0 <= x < lines.len() ==> (#[trigger] lines[x])@ == all[x],
            us == lines_time(all.take(i as int)),
            us <= i * u64::MAX,
        decreases lines.len() - i,
    {
        proof {
            assert(all.take(i + 1).drop_last() =~= all.take(i as int));
            assert(all.take(i + 1).last() == lines[i as int]@);
            assert(i * u64::MAX + u64::MAX == (i + 1) * u64::MAX) by (nonlinear_arith);
            assert((i + 1) * u64::MAX <= u64::MAX * u64::MAX) by (nonlinear_arith)
                requires
                    i + 1 <= u64::MAX,
            ;
        }
        let f: Vec<Vec<char>> = split_at_each(lines[i].as_slice(), '\t');
        let t: u64 = if f.len() > 3 {
            match parse_within(f[3].as_slice(), u64::MAX) {
                Some(n) => n,
                None => 0,
            }
        } else {
            0
        };
        us = us + t as u128;
        i += 1;
    }
    proof {
        assert(all.take(all.len() as int) =~= all);
    }
    if us > u64::MAX as u128 / 1000 {
        None
    } else {
        Some(us as u64 * 1000)
    }
}

/// ASCII letters and digits.
pub open spec fn alphanumeric(c: char) -> bool {
    ('a' <= c && c <= 'z') || ('A' <= c && c <= 'Z') || ('0' <= c && c <= '9')
}

/// The ASCII letters and digits of a text, as small letters.
pub open spec fn squeezed(s: Seq<char>) -> Seq<char>
    decreases s.len(),
{
    if s.len() == 0 {
        Seq::empty()
    } else {
        let before = squeezed(s.drop_last());
        if alphanumeric(s.last()) {
            before.push(text::lowered(s.last()))
        } else {
            before
        }
    }
}

fn squeeze(v: &[char]) -> (r: Vec<char>)
    ensures
        r@ == squeezed(v@),
{
    let mut r: Vec<char> = Vec::new();
    let mut i: usize = 0;
    proof {
        assert(v@.take(0) =~= Seq::<char>::empty());
    }
    while i < v.len()
        invariant
            i <= v.len(),
            r@ == squeezed(v@.take(i as int)),
        decreases v.len() - i,
    {
        let c: char = v[i];
        proof {
            assert(v@.take(i + 1).drop_last() =~= v@.take(i as int));
        }
        if ('a' <= c && c <= 'z') || ('A' <= c && c <= 'Z') || ('0' <= c && c <= '9') {
            let low: char = if 'A' <= c && c <= 'Z' {
                ((c as u32 + 32) as u8) as char
            } else {
                c
            };
            r.push(low);
        }
        i += 1;
    }
    proof {
        assert(v@.take(v.len() as int) =~= v@);
    }
    r
}

/// A profile line shows the fused kernel: by its type and kernel name, or by either
/// of them spelling it out.
pub open spec fn shows_fusion(line: Seq<char>) -> bool {
    let f = text::pieces(line, '\t');
    f.len() >= 3 && ((f[1] == "MOECompressed"@ && text::holds_text(f[2], "ocl::moe::moe_3gemm_"@))
        || text::holds_text(squeezed(f[1]), "moe3gemmfusedcompressed"@) || text::holds_text(
        squeezed(f[2]),
        "moe3gemmfusedcompressed"@,
    ))
}

/// Some line of a profile shows the fused kernel.
pub open spec fn profile_fused(profile: Seq<char>) -> bool {
    exists|i: int|
        0 <= i < text::line_pieces(profile).len() && shows_fusion(
            #[trigger] text::line_pieces(profile)[i],
        )
}

pub fn is_fused_profile(profile: &str) -> (b: bool)
    ensures
        b == profile_fused(profile@),
{
    let v: Vec<char> = chars_of(profile);
    let lines: Vec<Vec<char>> = split_lines(v.as_slice());
    let ghost all = text::line_pieces(profile@);
    let mut i: usize = 0;
    while i < lines.len()
        invariant
            i <= lines.len(),
            lines.len() == all.len(),
            all == text::line_pieces(profile@),
            forall|x: int| 0 <= x < lines.len() ==> (#[trigger] lines[x])@ == all[x],
            forall|x: int| 0 <= x < i ==> !shows_fusion(#[trigger] all[x]),
        decreases lines.len() - i,
    {
        let f: Vec<Vec<char>> = split_at_each(lines[i].as_slice(), '\t');
        if f.len() >= 3 {
            let name: String = text_of(f[1].as_slice());
            let a: Vec<char> = squeeze(f[1].as_slice());
            let b: Vec<char> = squeeze(f[2].as_slice());
            if (same_text(name.as_str(), "MOECompressed") && contains_text(
                f[2].as_slice(),
                "ocl::moe::moe_3gemm_",
            )) || contains_text(a.as_slice(), "moe3gemmfusedcompressed") || contains_text(
                b.as_slice(),
                "moe3gemmfusedcompressed",
            ) {
                proof {
                    assert(shows_fusion(all[i as int]));
                }
                return true;
            }
        }
        i += 1;
    }
    false
}

// ---------------------------------------------------------------------- padding

/// `rows` rows padded to `prow` rows with copies of the last one.
pub open spec fn padded_with_last<T>(v: Seq<T>, rows: int, prow: int, width: int) -> Seq<T> {
    Seq::new(
        (prow * width) as nat,
        |i: int|
            if i < rows * width {
                v[i]
            } else {
                v[(rows - 1) * width + i % width]
            },
    )
}

/// Pads rows with copies of the last one.
pub fn pad_with_last<T: Copy>(v: &[T], rows: usize, prow: usize, width: usize) -> (r: Vec<T>)
    requires
        0 < rows <= prow,
        width > 0,
        v.len() == rows * width,
        prow * width <= usize::MAX,
    ensures
        r@ =~= padded_with_last(v@, rows as int, prow as int, width as int),
{
    let mut r: Vec<T> = Vec::new();
    let mut i: usize = 0;
    while i < v.len()
        invariant
            i <= v.len(),
            r@ =~= v@.take(i as int),
        decreases v.len() - i,
    {
        r.push(v[i]);
        i += 1;
    }
    assert(rows * width >= width && rows * width <= prow * width) by (nonlinear_arith)
        requires
            0 < rows <= prow,
            width > 0,
    ;
    assert((rows - 1) * width == rows * width - width) by (nonlinear_arith);
    let base: usize = v.len() - width;
    let mut row: usize = rows;
    while row < prow
        invariant
            0 < rows <= row <= prow,
            width > 0,
            v.len() == rows * width,
            width <= v.len(),
            base == v.len() - width,
            base == (rows - 1) * width,
            prow * width <= usize::MAX,
            r@ =~= padded_with_last(v@, rows as int, row as int, width as int),
        decreases prow - row,
    {
        let mut c: usize = 0;
        assert((row + 1) * width == row * width + width && rows * width <= row * width)
            by (nonlinear_arith)
            requires
                rows <= row,
        ;
        while c < width
            invariant
                0 < rows <= row,
                c <= width,
                width > 0,
                v.len() == rows * width,
                width <= v.len(),
                base == v.len() - width,
                base == (rows - 1) * width,
                rows * width <= row * width,
                r.len() == row * width + c,
                forall|i: int|
                    0 <= i < r.len() ==> #[trigger] r[i] == if i < rows * width {
                        v[i]
                    } else {
                        v[(rows - 1) * width + i % (width as int)]
                    },
            decreases width - c,
        {
            proof {
                vstd::arithmetic::div_mod::lemma_fundamental_div_mod_converse(
                    row * width + c,
                    width as int,
                    row as int,
                    c as int,
                );
            }
            r.push(v[base + c]);
            c += 1;
        }
        row += 1;
    }
    r
}

/// Pads weights with zeros.
pub fn pad_with_zero(v: &[u32], n: usize) -> (r: Vec<u32>)
    requires
        v.len() <= n,
    ensures
        r@ =~= v@ + Seq::new((n - v.len()) as nat, |i: int| 0u32),
{
    let mut r: Vec<u32> = Vec::new();
    let mut i: usize = 0;
    while i < n
        invariant
            i <= n,
            v.len() <= n,
            r.len() == i,
            forall|x: int|
                0 <= x < i ==> #[trigger] r[x] == if x < v.len() {
                    v[x]
                } else {
                    0
                },
        decreases n - i,
    {
        if i < v.len() {
            r.push(v[i]);
        } else {
            r.push(0);
        }
        i += 1;
    }
    r
}

/// The bits of a row's factor times `2^n`; powers of two multiply by adding their
/// exponents, and infinity stays.
pub open spec fn factor_of(row: u32, n: u64) -> int {
    if row + n * OCTAVE >= INFINITY {
        INFINITY as int
    } else {
        row + n * OCTAVE
    }
}

/// What a row's output is multiplied with, where the row's own factor is no less than
/// the smallest normal number.
pub fn row_factor(row: u32, n: u64) -> (f: u32)
    requires
        n <= 16,
        OCTAVE <= row <= INFINITY,
    ensures
        f == factor_of(row, n),
{
    let octaves: u64 = n * 0x0080_0000;
    let sum: u64 = row as u64 + octaves;
    if sum >= INFINITY as u64 {
        INFINITY
    } else {
        sum as u32
    }
}

// ----------------------------------------------------------------------- backend

/// Counters of the fused backend.
#[derive(Clone, Copy, PartialEq, Eq, Structural, Debug)]
pub struct OvMoeStats {
    pub calls: u64,
    pub rows: u64,
    pub call_ns: u64,
    pub infer_ns: u64,
    pub device_ns: u64,
    pub compiles: u64,
    pub compile_ns: u64,
    pub fallbacks: u64,
    /// Calls whose output was not finite; part of `fallbacks`.
    pub nonfinite: u64,
}

/// How a layer's model is compiled.
#[derive(Clone, Copy, PartialEq, Eq, Structural, Debug)]
pub struct PluginPlan {
    /// Ask for per-primitive profiling.
    pub perf: bool,
    /// Stream a share of the experts from the model file.
    pub offload: bool,
    /// Use the compiled-model cache.
    pub cache: bool,
    /// Hold the weights in memory before compiling.
    pub materialize: bool,
    /// A cache was asked for that this plan does not use.
    pub cache_ignored: bool,
}

/// Chooses how models are compiled: the cache serves streamed models only.
pub fn plugin_plan(perf: bool, offload: bool, cache: bool) -> (p: PluginPlan)
    ensures
        p == (PluginPlan {
            perf,
            offload,
            cache: offload && cache,
            materialize: !offload,
            cache_ignored: !offload && cache,
        }),
{
    PluginPlan {
        perf,
        offload,
        cache: offload && cache,
        materialize: !offload,
        cache_ignored: !offload && cache,
    }
}

/// Whether the backend exists.
#[derive(Clone, Copy, PartialEq, Eq, Structural, Debug)]
pub enum Availability {
    /// Not asked for.
    Off,
    /// Asked for, but the model has no folder for it.
    MissingFolder,
    On,
}

pub fn availability(enabled: bool, folder: bool) -> (a: Availability)
    ensures
        a == (if !enabled {
            Availability::Off
        } else if !folder {
            Availability::MissingFolder
        } else {
            Availability::On
        }),
{
    if !enabled {
        Availability::Off
    } else if !folder {
        Availability::MissingFolder
    } else {
        Availability::On
    }
}

/// How a call starts.
#[derive(Clone, Copy, PartialEq, Eq, Structural, Debug)]
pub enum CallStart {
    /// No rows: the answer is empty.
    Nothing,
    /// The layer is given up; the caller takes another path.
    Declined,
    /// The layer's model is to be compiled first.
    Compile,
    /// The layer's model is there.
    Run,
}

/// How a call's output is judged.
pub enum OutputOutcome {
    /// The rows' outputs.
    Accepted(Vec<u32>),
    /// The output has another size: the layer is given up.
    WrongLength { report: bool },
    /// The output holds a value that is not finite.
    NotFinite { report: bool },
}

/// The counters that a warm-up leaves as they were.
#[derive(Clone, Copy, PartialEq, Eq, Structural, Debug)]
pub struct WarmMark {
    pub calls: u64,
    pub rows: u64,
    pub call_ns: u64,
}

/// The fused backend of a process.
pub struct OvMoe {
    pub hidden: usize,
    /// Experts per row that the models take.
    pub k_total: usize,
    /// Real experts of a layer.
    pub n_experts: usize,
    pub offload: bool,
    pub require_fused: bool,
    /// A folder for decode-kernel layers is named.
    pub decode_dir: bool,
    pub decode_layers: DecodeLayers,
    pub decode_rows: usize,
    pub buckets: Vec<usize>,
    /// Layers with a compiled model.
    pub compiled: IdSet,
    /// Layers that are given up.
    pub failed: IdSet,
    /// Layers whose first failed call was reported.
    pub noted: IdSet,
    /// Layers whose profile showed the fused kernel.
    pub fused: IdSet,
    /// The profiles that showed the fused kernel, by layer.
    pub profiles: Vec<(u32, String)>,
    /// Known output scales: layer and exponent.
    pub exponents: Vec<(u32, u64)>,
    pub stats: OvMoeStats,
}

/// Every value is finite.
pub open spec fn all_finite(v: Seq<u32>) -> bool {
    forall|i: int| 0 <= i < v.len() ==> float_bits::magnitude(#[trigger] v[i]) < INFINITY
}

fn every_finite(v: &[u32]) -> (b: bool)
    ensures
        b == all_finite(v@),
{
    let mut i: usize = 0;
    while i < v.len()
        invariant
            i <= v.len(),
            forall|x: int| 0 <= x < i ==> float_bits::magnitude(#[trigger] v[x]) < INFINITY,
        decreases v.len() - i,
    {
        if magnitude_of(v[i]) >= INFINITY {
            return false;
        }
        i += 1;
    }
    true
}

/// Layer ids of a set.
pub open spec fn layer_ids(s: IdSet) -> bool {
    forall|i: int| 0 <= i < s.ids.len() ==> (#[trigger] s.ids[i]) <= u32::MAX
}

/// The exponent on record for a layer.
pub open spec fn known_exponent(known: Seq<(u32, u64)>, lid: u32) -> Option<u64>
    decreases known.len(),
{
    if known.len() == 0 {
        None
    } else if known[0].0 == lid {
        Some(known[0].1)
    } else {
        known_exponent(known.drop_first(), lid)
    }
}

/// `after` is `before` with a layer's profile behind it.
pub open spec fn kept(
    before: Seq<(u32, String)>,
    after: Seq<(u32, String)>,
    lid: u32,
    profile: Seq<char>,
) -> bool {
    &&& after.len() == before.len() + 1
    &&& after.drop_last() == before
    &&& after.last().0 == lid
    &&& after.last().1@ == profile
}

impl OvMoe {
    pub open spec fn wf(self) -> bool {
        &&& self.hidden > 0
        &&& self.k_total > 0
        &&& 1 <= self.decode_rows <= 32
        &&& buckets_wf(self.buckets@)
        &&& self.compiled.wf()
        &&& self.failed.wf()
        &&& layer_ids(self.failed)
        &&& self.noted.wf()
        &&& self.fused.wf()
        &&& forall|i: int|
            0 <= i < self.profiles.len() ==> self.fused.has((#[trigger] self.profiles[i]).0 as u64)
        &&& forall|i: int, j: int|
            0 <= i < j < self.profiles.len() ==> (#[trigger] self.profiles[i]).0 != (
            #[trigger] self.profiles[j]).0
        &&& forall|i: int| 0 <= i < self.exponents.len() ==> (#[trigger] self.exponents[i]).1 <= 16
    }

    /// The same backend, its tables and counters apart.
    pub open spec fn same_config(self, o: OvMoe) -> bool {
        &&& self.hidden == o.hidden
        &&& self.k_total == o.k_total
        &&& self.n_experts == o.n_experts
        &&& self.offload == o.offload
        &&& self.require_fused == o.require_fused
        &&& self.decode_dir == o.decode_dir
        &&& self.decode_layers == o.decode_layers
        &&& self.decode_rows == o.decode_rows
        &&& self.buckets == o.buckets
    }

    /// The layer is given up.
    pub open spec fn gave_up(self, lid: u32) -> bool {
        self.failed.has(lid as u64)
    }

    pub fn new(
        hidden: usize,
        k_total: usize,
        n_experts: usize,
        offload: bool,
        decode_dir: bool,
        decode_layers: DecodeLayers,
        decode_rows: usize,
        buckets: Vec<usize>,
    ) -> (o: OvMoe)
        requires
            hidden > 0,
            k_total > 0,
            1 <= decode_rows <= 32,
            buckets_wf(buckets@),
        ensures
            o.wf(),
            o.hidden == hidden,
            o.k_total == k_total,
            o.n_experts == n_experts,
            o.offload == offload,
            !o.require_fused,
            o.decode_dir == decode_dir,
            o.decode_layers == decode_layers,
            o.decode_rows == decode_rows,
            o.buckets == buckets,
            forall|l: u64|
                !(#[trigger] o.failed.has(l)) && !o.compiled.has(l) && !o.noted.has(l)
                    && !o.fused.has(l),
            o.profiles.len() == 0,
            o.exponents.len() == 0,
            o.stats == (OvMoeStats {
                calls: 0,
                rows: 0,
                call_ns: 0,
                infer_ns: 0,
                device_ns: 0,
                compiles: 0,
                compile_ns: 0,
                fallbacks: 0,
                nonfinite: 0,
            }),
    {
        OvMoe {
            hidden,
            k_total,
            n_experts,
            offload,
            require_fused: false,
            decode_dir,
            decode_layers,
            decode_rows,
            buckets,
            compiled: IdSet::new(),
            failed: IdSet::new(),
            noted: IdSet::new(),
            fused: IdSet::new(),
            profiles: Vec::new(),
            exponents: Vec::new(),
            stats: OvMoeStats {
                calls: 0,
                rows: 0,
                call_ns: 0,
                infer_ns: 0,
                device_ns: 0,
                compiles: 0,
                compile_ns: 0,
                fallbacks: 0,
                nonfinite: 0,
            },
        }
    }

    /// Refuses every layer whose profile does not show the fused kernel.
    pub fn requiring_fusion(self) -> (o: OvMoe)
        ensures
            o == (OvMoe { require_fused: true, ..self }),
    {
        let mut o = self;
        o.require_fused = true;
        o
    }

    pub fn k_total(&self) -> (k: usize)
        ensures
            k == self.k_total,
    {
        self.k_total
    }

    pub fn stats(&self) -> (s: OvMoeStats)
        ensures
            s == self.stats,
    {
        self.stats
    }

    /// The layer's model stands in the folder for decode kernels.
    pub fn is_regrouped(&self, in_folder: bool) -> (b: bool)
        ensures
            b == (self.decode_dir && in_folder),
    {
        self.decode_dir && in_folder
    }

    /// Small calls of the layer take the decode kernels.
    pub open spec fn decodes(self, lid: u32, in_folder: bool) -> bool {
        (self.decode_dir && in_folder) || self.decode_layers.all
            || self.decode_layers.list@.contains(lid as u64)
    }

    pub fn uses_decode_kernels(&self, lid: u32, in_folder: bool) -> (b: bool)
        ensures
            b == self.decodes(lid, in_folder),
    {
        self.is_regrouped(in_folder) || self.decode_layers.decode_layer_listed(lid)
    }

    /// The rows that a call is padded to.
    pub fn padded_rows(&self, lid: u32, in_folder: bool, rows: usize) -> (n: usize)
        requires
            self.wf(),
            rows <= usize::MAX - 31,
        ensures
            n == if rows <= self.decode_rows && self.decodes(lid, in_folder) {
                rows as int
            } else {
                bucket_for(self.buckets@, rows as int)
            },
            n >= rows,
    {
        if rows <= self.decode_rows && self.uses_decode_kernels(lid, in_folder) {
            rows
        } else {
            bucket_rows(self.buckets.as_slice(), rows)
        }
    }

    /// The decode threshold to set before a layer is compiled, where the process has
    /// another one and layers differ.
    pub fn threshold(&self, lid: u32, in_folder: bool, current: Option<&str>) -> (t: Option<usize>)
        ensures
            ({
                let decode = self.decodes(lid, in_folder);
                let want: nat = if decode {
                    self.decode_rows as nat
                } else {
                    0
                };
                let differs = !(current matches Some(c) && c@ == text::decimal_text(want));
                &&& t is Some <==> differs && (decode || self.decode_dir || self.decode_layers.all
                    || self.decode_layers.list.len() > 0)
                &&& t matches Some(n) ==> n == want
            }),
    {
        let decode: bool = self.uses_decode_kernels(lid, in_folder);
        let want: usize = if decode {
            self.decode_rows
        } else {
            0
        };
        let digits: Vec<char> = write_decimal(want as u64);
        let name: String = text_of(digits.as_slice());
        let same: bool = match current {
            Some(c) => same_text(c, name.as_str()),
            None => false,
        };
        if !same && (decode || self.decode_dir || self.decode_layers.decode_layers_configured()) {
            Some(want)
        } else {
            None
        }
    }

    fn give_up(&mut self, lid: u32) -> (report: bool)
        requires
            old(self).wf(),
        ensures
            final(self).wf(),
            report == !old(self).gave_up(lid),
            forall|l: u64|
                #[trigger] final(self).failed.has(l) <==> old(self).failed.has(l) || l == lid,
            *final(self) == (OvMoe { failed: final(self).failed, ..*old(self) }),
    {
        let r: bool = self.failed.insert(lid as u64);
        proof {
            assert forall|i: int| 0 <= i < self.failed.ids.len() implies (
            #[trigger] self.failed.ids[i]) <= u32::MAX by {
                let x = self.failed.ids[i];
                assert(self.failed.has(x));
                if x != lid as u64 {
                    assert(old(self).failed.has(x));
                    let j = choose|j: int|
                        0 <= j < old(self).failed.ids@.len() && old(self).failed.ids@[j] == x;
                    assert(old(self).failed.ids[j] <= u32::MAX);
                }
            }
        }
        r
    }

    /// Gives a layer up; whether this is new and to be reported.
    pub fn fail_layer(&mut self, lid: u32) -> (report: bool)
        requires
            old(self).wf(),
        ensures
            final(self).wf(),
            report == !old(self).gave_up(lid),
            forall|l: u64|
                #[trigger] final(self).failed.has(l) <==> old(self).failed.has(l) || l == lid,
            *final(self) == (OvMoe { failed: final(self).failed, ..*old(self) }),
    {
        self.give_up(lid)
    }

    /// A layer's model takes another number of experts than the layer selects: it is
    /// given up.
    pub fn mark_k_mismatch(&mut self, lid: u32) -> (report: bool)
        requires
            old(self).wf(),
        ensures
            final(self).wf(),
            report == !old(self).gave_up(lid),
            forall|l: u64|
                #[trigger] final(self).failed.has(l) <==> old(self).failed.has(l) || l == lid,
            *final(self) == (OvMoe { failed: final(self).failed, ..*old(self) }),
    {
        self.give_up(lid)
    }

    /// A call met such a layer: it counts as a fallback, and the layer is given up.
    pub fn note_k_mismatch(&mut self, lid: u32) -> (report: bool)
        requires
            old(self).wf(),
        ensures
            final(self).wf(),
            report == !old(self).gave_up(lid),
            forall|l: u64|
                #[trigger] final(self).failed.has(l) <==> old(self).failed.has(l) || l == lid,
            *final(self) == (OvMoe {
                failed: final(self).failed,
                stats: (OvMoeStats {
                    fallbacks: old(self).stats.fallbacks.wrapping_add(1),
                    ..old(self).stats
                }),
                ..*old(self)
            }),
    {
        self.stats.fallbacks = self.stats.fallbacks.wrapping_add(1);
        self.give_up(lid)
    }

    /// The layers that are given up, ascending.
    pub fn failed_layers(&self) -> (v: Vec<u32>)
        requires
            self.wf(),
        ensures
            v.len() == self.failed.ids.len(),
            forall|i: int| 0 <= i < v.len() ==> #[trigger] v[i] == self.failed.ids[i],
            forall|i: int, j: int| 0 <= i < j < v.len() ==> (#[trigger] v[i]) < (#[trigger] v[j]),
            forall|l: u32| #[trigger] v@.contains(l) <==> self.gave_up(l),
    {
        let mut v: Vec<u32> = Vec::new();
        let mut i: usize = 0;
        while i < self.failed.ids.len()
            invariant
                self.wf(),
                i <= self.failed.ids.len(),
                v.len() == i,
                forall|x: int| 0 <= x < i ==> #[trigger] v[x] == self.failed.ids[x],
            decreases self.failed.ids.len() - i,
        {
            v.push(self.failed.ids[i] as u32);
            i += 1;
        }
        proof {
            assert forall|i: int, j: int| 0 <= i < j < v.len() implies (#[trigger] v[i]) < (
            #[trigger] v[j]) by {
                assert(self.failed.ids[i] < self.failed.ids[j]);
            }
            assert forall|l: u32| #[trigger] v@.contains(l) <==> self.gave_up(l) by {
                if v@.contains(l) {
                    let x = choose|x: int| 0 <= x < v@.len() && v@[x] == l;
                    assert(self.failed.ids@[x] == l as u64);
                }
                if self.gave_up(l) {
                    let x = choose|x: int|
                        0 <= x < self.failed.ids@.len() && self.failed.ids@[x] == l as u64;
                    assert(v@[x] == l);
                }
            }
        }
        v
    }

    /// How a call of `rows` rows starts. A layer that is given up counts as a
    /// fallback.
    pub fn call_begin(&mut self, lid: u32, rows: usize) -> (s: CallStart)
        requires
            old(self).wf(),
        ensures
            final(self).wf(),
            s == (if rows == 0 {
                CallStart::Nothing
            } else if old(self).gave_up(lid) {
                CallStart::Declined
            } else if old(self).compiled.has(lid as u64) {
                CallStart::Run
            } else {
                CallStart::Compile
            }),
            *final(self) == (OvMoe {
                stats: (OvMoeStats {
                    fallbacks: if s is Declined {
                        old(self).stats.fallbacks.wrapping_add(1)
                    } else {
                        old(self).stats.fallbacks
                    },
                    ..old(self).stats
                }),
                ..*old(self)
            }),
    {
        if rows == 0 {
            return CallStart::Nothing;
        }
        if self.failed.contains(lid as u64) {
            self.stats.fallbacks = self.stats.fallbacks.wrapping_add(1);
            return CallStart::Declined;
        }
        if self.compiled.contains(lid as u64) {
            CallStart::Run
        } else {
            CallStart::Compile
        }
    }

    /// Settles a compilation: a failed one gives the layer up. Whether that is to be
    /// reported.
    pub fn compile_settled(&mut self, lid: u32, ok: bool, ns: u64) -> (report: bool)
        requires
            old(self).wf(),
        ensures
            final(self).wf(),
            report == (!ok && !old(self).gave_up(lid)),
            ok ==> {
                &&& forall|l: u64|
                    #[trigger] final(self).compiled.has(l) <==> old(self).compiled.has(l) || l
                        == lid
                &&& *final(self) == (OvMoe {
                    compiled: final(self).compiled,
                    stats: (OvMoeStats {
                        compiles: old(self).stats.compiles.wrapping_add(1),
                        compile_ns: old(self).stats.compile_ns.wrapping_add(ns),
                        ..old(self).stats
                    }),
                    ..*old(self)
                })
            },
            !ok ==> {
                &&& forall|l: u64|
                    #[trigger] final(self).failed.has(l) <==> old(self).failed.has(l) || l == lid
                &&& *final(self) == (OvMoe { failed: final(self).failed, ..*old(self) })
            },
    {
        if ok {
            self.stats.compiles = self.stats.compiles.wrapping_add(1);
            self.stats.compile_ns = self.stats.compile_ns.wrapping_add(ns);
            self.compiled.insert(lid as u64);
            false
        } else {
            self.give_up(lid)
        }
    }

    /// The caller takes another path after a failed compilation.
    pub fn declined(&mut self)
        requires
            old(self).wf(),
        ensures
            final(self).wf(),
            *final(self) == (OvMoe {
                stats: (OvMoeStats {
                    fallbacks: old(self).stats.fallbacks.wrapping_add(1),
                    ..old(self).stats
                }),
                ..*old(self)
            }),
    {
        self.stats.fallbacks = self.stats.fallbacks.wrapping_add(1);
    }

    /// A call failed on the device: it is a fallback, reported once per layer, and
    /// the layer stays.
    pub fn call_failed(&mut self, lid: u32) -> (report: bool)
        requires
            old(self).wf(),
        ensures
            final(self).wf(),
            report == !old(self).noted.has(lid as u64),
            forall|l: u64|
                #[trigger] final(self).noted.has(l) <==> old(self).noted.has(l) || l == lid,
            *final(self) == (OvMoe {
                noted: final(self).noted,
                stats: (OvMoeStats {
                    fallbacks: old(self).stats.fallbacks.wrapping_add(1),
                    ..old(self).stats
                }),
                ..*old(self)
            }),
    {
        self.stats.fallbacks = self.stats.fallbacks.wrapping_add(1);
        self.noted.insert(lid as u64)
    }

    /// The layer's profile is still to be looked at.
    pub fn needs_profile(&self, lid: u32) -> (b: bool)
        ensures
            b == (self.require_fused && !self.fused.has(lid as u64)),
    {
        self.require_fused && !self.fused.contains(lid as u64)
    }

    /// The profiles that showed the fused kernel, by layer and in the order in which the
    /// layers were first called; at most one of each layer.
    pub fn fusion_profiles(&self) -> (p: &Vec<(u32, String)>)
        requires
            self.wf(),
        ensures
            *p == self.profiles,
            forall|i: int, j: int|
                0 <= i < j < p.len() ==> (#[trigger] p[i]).0 != (#[trigger] p[j]).0,
    {
        &self.profiles
    }

    /// Settles a layer's profile: one that shows the fused kernel is kept; without it the
    /// layer is given up and the call is a fallback. Whether the call goes on, and whether
    /// a failure is to be reported.
    pub fn fusion_settled(&mut self, lid: u32, profile: &str) -> (r: (bool, bool))
        requires
            old(self).wf(),
            !old(self).fused.has(lid as u64),
        ensures
            final(self).wf(),
            r.0 == profile_fused(profile@),
            r.1 == (!r.0 && !old(self).gave_up(lid)),
            r.0 ==> {
                &&& forall|l: u64|
                    #[trigger] final(self).fused.has(l) <==> old(self).fused.has(l) || l == lid
                &&& kept(old(self).profiles@, final(self).profiles@, lid, profile@)
                &&& *final(self) == (OvMoe {
                    fused: final(self).fused,
                    profiles: final(self).profiles,
                    ..*old(self)
                })
            },
            !r.0 ==> {
                &&& forall|l: u64|
                    #[trigger] final(self).failed.has(l) <==> old(self).failed.has(l) || l == lid
                &&& *final(self) == (OvMoe {
                    failed: final(self).failed,
                    stats: (OvMoeStats {
                        fallbacks: old(self).stats.fallbacks.wrapping_add(1),
                        ..old(self).stats
                    }),
                    ..*old(self)
                })
            },
    {
        if is_fused_profile(profile) {
            self.fused.insert(lid as u64);
            let text: String = text_of(chars_of(profile).as_slice());
            self.profiles.push((lid, text));
            proof {
                assert(self.profiles@.drop_last() =~= old(self).profiles@);
            }
            (true, false)
        } else {
            self.stats.fallbacks = self.stats.fallbacks.wrapping_add(1);
            let report: bool = self.give_up(lid);
            (false, report)
        }
    }

    /// Judges a call's output of `prow` padded rows: another size gives the layer up,
    /// a value that is not finite makes the call a fallback; otherwise the first
    /// `rows` rows are the answer.
    pub fn settle_output(&mut self, lid: u32, out: Vec<u32>, rows: usize, prow: usize) -> (r:
        OutputOutcome)
        requires
            old(self).wf(),
            rows <= prow,
            prow * old(self).hidden <= usize::MAX,
        ensures
            final(self).wf(),
            final(self).same_config(*old(self)),
            out.len() != prow * old(self).hidden ==> {
                &&& r == (OutputOutcome::WrongLength { report: !old(self).gave_up(lid) })
                &&& forall|l: u64|
                    #[trigger] final(self).failed.has(l) <==> old(self).failed.has(l) || l == lid
                &&& *final(self) == (OvMoe {
                    failed: final(self).failed,
                    stats: (OvMoeStats {
                        fallbacks: old(self).stats.fallbacks.wrapping_add(1),
                        ..old(self).stats
                    }),
                    ..*old(self)
                })
            },
            out.len() == prow * old(self).hidden ==> {
                let kept = out@.take(rows * old(self).hidden);
                if all_finite(kept) {
                    &&& r matches OutputOutcome::Accepted(v) && v@ =~= kept
                    &&& *final(self) == *old(self)
                } else {
                    &&& r == (OutputOutcome::NotFinite { report: !old(self).noted.has(lid as u64) })
                    &&& forall|l: u64|
                        #[trigger] final(self).noted.has(l) <==> old(self).noted.has(l) || l == lid
                    &&& *final(self) == (OvMoe {
                        noted: final(self).noted,
                        stats: (OvMoeStats {
                            fallbacks: old(self).stats.fallbacks.wrapping_add(1),
                            nonfinite: old(self).stats.nonfinite.wrapping_add(1),
                            ..old(self).stats
                        }),
                        ..*old(self)
                    })
                }
            },
    {
        assert(rows * self.hidden <= prow * self.hidden) by (nonlinear_arith)
            requires
                rows <= prow,
        ;
        if out.len() != prow * self.hidden {
            self.stats.fallbacks = self.stats.fallbacks.wrapping_add(1);
            let report: bool = self.give_up(lid);
            return OutputOutcome::WrongLength { report };
        }
        let mut kept = out;
        kept.truncate(rows * self.hidden);
        proof {
            assert(kept@ =~= out@.take(rows * self.hidden));
        }
        if !every_finite(kept.as_slice()) {
            self.stats.nonfinite = self.stats.nonfinite.wrapping_add(1);
            self.stats.fallbacks = self.stats.fallbacks.wrapping_add(1);
            let report: bool = self.noted.insert(lid as u64);
            return OutputOutcome::NotFinite { report };
        }
        OutputOutcome::Accepted(kept)
    }

    /// The exponent of a layer's output scale: what is on record, else what its
    /// description says, which then goes on record.
    pub fn layer_out_scale(&mut self, lid: u32, description: Option<&str>) -> (n: u64)
        requires
            old(self).wf(),
        ensures
            final(self).wf(),
            n <= 16,
            n == match known_exponent(old(self).exponents@, lid) {
                Some(k) => k,
                None => described_exponent(description),
            },
            *final(self) == (OvMoe { exponents: final(self).exponents, ..*old(self) }),
            known_exponent(old(self).exponents@, lid) is Some ==> *final(self) == *old(self),
            known_exponent(old(self).exponents@, lid) is None ==> final(self).exponents@ == old(self).exponents@.push((lid, n)),
    {
        let mut i: usize = 0;
        proof {
            assert(self.exponents@.skip(0) =~= self.exponents@);
        }
        while i < self.exponents.len()
            invariant
                self.wf(),
                *self == *old(self),
                i <= self.exponents.len(),
                known_exponent(self.exponents@, lid) == known_exponent(
                    self.exponents@.skip(i as int),
                    lid,
                ),
            decreases self.exponents.len() - i,
        {
            proof {
                assert(self.exponents@.skip(i as int).drop_first() =~= self.exponents@.skip(i + 1));
            }
            if self.exponents[i].0 == lid {
                return self.exponents[i].1;
            }
            i += 1;
        }
        let n: u64 = up_scale_exponent(description);
        self.exponents.push((lid, n));
        n
    }

    /// Counts an answered call.
    pub fn call_done(&mut self, rows: usize, ns: u64)
        requires
            old(self).wf(),
        ensures
            final(self).wf(),
            *final(self) == (OvMoe {
                stats: (OvMoeStats {
                    calls: old(self).stats.calls.wrapping_add(1),
                    rows: old(self).stats.rows.wrapping_add(rows as u64),
                    call_ns: old(self).stats.call_ns.wrapping_add(ns),
                    ..old(self).stats
                }),
                ..*old(self)
            }),
    {
        self.stats.calls = self.stats.calls.wrapping_add(1);
        self.stats.rows = self.stats.rows.wrapping_add(rows as u64);
        self.stats.call_ns = self.stats.call_ns.wrapping_add(ns);
    }

    /// Counts the time inside a profiled inference.
    pub fn infer_done(&mut self, infer_ns: u64, device_ns: u64)
        requires
            old(self).wf(),
        ensures
            final(self).wf(),
            *final(self) == (OvMoe {
                stats: (OvMoeStats {
                    infer_ns: old(self).stats.infer_ns.wrapping_add(infer_ns),
                    device_ns: old(self).stats.device_ns.wrapping_add(device_ns),
                    ..old(self).stats
                }),
                ..*old(self)
            }),
    {
        self.stats.infer_ns = self.stats.infer_ns.wrapping_add(infer_ns);
        self.stats.device_ns = self.stats.device_ns.wrapping_add(device_ns);
    }

    /// The counters before a warm-up.
    pub fn warm_begin(&self) -> (m: WarmMark)
        ensures
            m == (WarmMark {
                calls: self.stats.calls,
                rows: self.stats.rows,
                call_ns: self.stats.call_ns,
            }),
    {
        WarmMark {
            calls: self.stats.calls,
            rows: self.stats.rows,
            call_ns: self.stats.call_ns,
        }
    }

    /// Takes a warm-up's calls back out of the counters.
    pub fn warm_end(&mut self, m: WarmMark)
        requires
            old(self).wf(),
        ensures
            final(self).wf(),
            *final(self) == (OvMoe {
                stats: (OvMoeStats {
                    calls: m.calls,
                    rows: m.rows,
                    call_ns: m.call_ns,
                    ..old(self).stats
                }),
                ..*old(self)
            }),
    {
        self.stats.calls = m.calls;
        self.stats.rows = m.rows;
        self.stats.call_ns = m.call_ns;
    }

    /// The ids with which a warm-up touches every expert once: all of them, filled up
    /// with the first one to whole calls.
    pub fn touch_ids(&self) -> (ids: Vec<i32>)
        requires
            self.wf(),
            self.n_experts <= i32::MAX,
            self.n_experts + self.k_total <= usize::MAX,
        ensures
            ids.len() % self.k_total == 0,
            self.n_experts <= ids.len() < self.n_experts + self.k_total,
            forall|i: int|
                0 <= i < ids.len() ==> #[trigger] ids[i] == if i < self.n_experts {
                    i
                } else {
                    0
                },
    {
        let mut ids: Vec<i32> = Vec::new();
        while ids.len() < self.n_experts
            invariant
                self.n_experts <= i32::MAX,
                ids.len() <= self.n_experts,
                forall|i: int| 0 <= i < ids.len() ==> #[trigger] ids[i] == i,
            decreases self.n_experts - ids.len(),
        {
            ids.push(ids.len() as i32);
        }
        let r: usize = self.n_experts % self.k_total;
        let fill: usize = if r == 0 {
            0
        } else {
            self.k_total - r
        };
        let total: usize = self.n_experts + fill;
        proof {
            let k = self.k_total as int;
            let n = self.n_experts as int;
            vstd::arithmetic::div_mod::lemma_fundamental_div_mod(n, k);
            let q = n / k;
            assert(k * q == q * k) by (nonlinear_arith);
            if r == 0 {
            } else {
                assert(total == (q + 1) * k) by (nonlinear_arith)
                    requires
                        total == n + k - r,
                        n == q * k + r,
                ;
                vstd::arithmetic::div_mod::lemma_fundamental_div_mod_converse(
                    total as int,
                    k,
                    q + 1,
                    0,
                );
            }
        }
        while ids.len() < total
            invariant
                self.n_experts <= ids.len() <= total,
                forall|i: int|
                    0 <= i < ids.len() ==> #[trigger] ids[i] == if i < self.n_experts {
                        i
                    } else {
                        0
                    },
            decreases total - ids.len(),
        {
            ids.push(0);
        }
        ids
    }

    /// The ids of a warm-up call of `rows` rows: the highest ones, over and over.
    pub fn warm_ids(&self, rows: usize) -> (ids: Vec<i32>)
        requires
            self.wf(),
            self.n_experts <= i32::MAX,
            rows * self.k_total <= usize::MAX,
        ensures
            self.n_experts == 0 ==> ids.len() == 0,
            self.n_experts > 0 ==> {
                let m = if self.k_total < self.n_experts {
                    self.k_total as int
                } else {
                    self.n_experts as int
                };
                &&& ids.len() == rows * self.k_total
                &&& forall|i: int|
                    0 <= i < ids.len() ==> #[trigger] ids[i] == self.n_experts - m + i % m
            },
    {
        let mut ids: Vec<i32> = Vec::new();
        if self.n_experts == 0 {
            return ids;
        }
        let m: usize = if self.k_total < self.n_experts {
            self.k_total
        } else {
            self.n_experts
        };
        let total: usize = rows * self.k_total;
        while ids.len() < total
            invariant
                0 < m <= self.n_experts,
                self.n_experts <= i32::MAX,
                ids.len() <= total,
                forall|i: int|
                    0 <= i < ids.len() ==> #[trigger] ids[i] == self.n_experts - m + i % (
                    m as int),
            decreases total - ids.len(),
        {
            let c: usize = ids.len() % m;
            ids.push((self.n_experts - m + c) as i32);
        }
        ids
    }

    /// The shapes that a warm-up calls: the small buckets, and every row count that
    /// the decode kernels take; ascending.
    pub fn warm_shapes(&self, decode: bool) -> (v: Vec<usize>)
        requires
            self.wf(),
        ensures
            forall|i: int, j: int| 0 <= i < j < v.len() ==> (#[trigger] v[i]) < (#[trigger] v[j]),
            forall|b: usize|
                #[trigger] v@.contains(b) <==> (b <= 8 && self.buckets@.contains(b)) || (decode && 1
                    <= b <= self.decode_rows),
    {
        let mut v: Vec<usize> = Vec::new();
        let mut b: usize = 1;
        while b <= 32
            invariant
                self.wf(),
                1 <= b <= 33,
                forall|i: int, j: int|
                    0 <= i < j < v.len() ==> (#[trigger] v[i]) < (#[trigger] v[j]),
                forall|i: int| 0 <= i < v.len() ==> (#[trigger] v[i]) < b,
                forall|c: usize|
                    #[trigger] v@.contains(c) <==> 1 <= c < b && ((c <= 8 && self.buckets@.contains(
                        c,
                    )) || (decode && c <= self.decode_rows)),
            decreases 33 - b,
        {
            let keep: bool = (b <= 8 && holds(&self.buckets, b)) || (decode && b
                <= self.decode_rows);
            let ghost before = v@;
            if keep {
                v.push(b);
            }
            proof {
                assert forall|c: usize| #[trigger] v@.contains(c) <==> 1 <= c < b + 1 && ((c <= 8
                    && self.buckets@.contains(c)) || (decode && c <= self.decode_rows)) by {
                    if before.contains(c) {
                        let x = choose|x: int| 0 <= x < before.len() && before[x] == c;
                        assert(v@[x] == c);
                    }
                    if keep && c == b {
                        assert(v@[v@.len() - 1] == c);
                    }
                    if v@.contains(c) && c != b {
                        let x = choose|x: int| 0 <= x < v@.len() && v@[x] == c;
                        assert(before[x] == c);
                    }
                    if v@.contains(c) && c == b && !keep {
                        assert(before.contains(c));
                    }
                }
            }
            b += 1;
        }
        proof {
            assert forall|c: usize| #[trigger] v@.contains(c) <==> (c <= 8 && self.buckets@.contains(
                c,
            )) || (decode && 1 <= c <= self.decode_rows) by {
                if self.buckets@.contains(c) {
                    let x = choose|x: int| 0 <= x < self.buckets@.len() && self.buckets@[x] == c;
                    assert(1 <= self.buckets@[x]);
                }
            }
        }
        v
    }
}

fn holds(v: &Vec<usize>, n: usize) -> (b: bool)
    ensures
        b == v@.contains(n),
{
    let mut i: usize = 0;
    while i < v.len()
        invariant
            i <= v.len(),
            forall|x: int| 0 <= x < i ==> #[trigger] v[x] != n,
        decreases v.len() - i,
    {
        if v[i] == n {
            assert(v@[i as int] == n);
            return true;
        }
        i += 1;
    }
    false
}

// ------------------------------------------------------------------- whole calls

/// A call as the device takes it: `rows` rows padded to `prow`.
pub struct PaddedCall {
    pub prow: usize,
    pub xs: Vec<u32>,
    pub ids: Vec<i32>,
    pub weights: Vec<u32>,
}

/// What a finished or failed device call comes to.
pub enum ForwardOutcome {
    /// The rows, before any scale is undone.
    Done(Vec<u32>),
    /// The device refused an input, the run or the output.
    CallFailed { report: bool },
    /// The profile does not show the fused kernel that is required.
    NotFused { report: bool },
    WrongLength { report: bool },
    NotFinite { report: bool },
}

/// Words that the device gave, nothing where it gave none.
pub open spec fn device_words(output: Option<&[u8]>) -> Option<Seq<u32>> {
    match output {
        Some(b) => Some(bytes::words_of(b@)),
        None => None,
    }
}

impl OvMoe {
    /// The required kernel is known to run or shows in this call's profile.
    pub open spec fn shows_kernel(self, lid: u32, profile: Seq<char>) -> bool {
        !self.require_fused || self.fused.has(lid as u64) || profile_fused(profile)
    }

    /// Pads a call to its shape: copies of the last row with zero weights, so that no
    /// other expert is touched and nothing is added.
    pub fn padded_call(
        &self,
        lid: u32,
        in_folder: bool,
        xs: &[u32],
        ids: &[i32],
        weights: &[u32],
        rows: usize,
    ) -> (c: PaddedCall)
        requires
            self.wf(),
            0 < rows <= usize::MAX - 31,
            xs.len() == rows * self.hidden,
            ids.len() == rows * self.k_total,
            weights.len() == rows * self.k_total,
            bucket_for(self.buckets@, rows as int) * self.hidden <= usize::MAX,
            bucket_for(self.buckets@, rows as int) * self.k_total <= usize::MAX,
        ensures
            c.prow == (if rows <= self.decode_rows && self.decodes(lid, in_folder) {
                rows as int
            } else {
                bucket_for(self.buckets@, rows as int)
            }),
            c.xs@ == padded_with_last(xs@, rows as int, c.prow as int, self.hidden as int),
            c.ids@ == padded_with_last(ids@, rows as int, c.prow as int, self.k_total as int),
            c.weights@ == weights@ + Seq::new(
                ((c.prow - rows) * self.k_total) as nat,
                |i: int| 0u32,
            ),
    {
        let prow: usize = self.padded_rows(lid, in_folder, rows);
        proof {
            let k = self.k_total as int;
            assert(rows * k + (prow - rows) * k == prow * k && 0 <= (prow - rows) * k)
                by (nonlinear_arith)
                requires
                    rows <= prow,
                    k >= 0,
            ;
        }
        let padded: Vec<u32> = pad_with_last(xs, rows, prow, self.hidden);
        let more: Vec<i32> = pad_with_last(ids, rows, prow, self.k_total);
        let zeroed: Vec<u32> = pad_with_zero(weights, prow * self.k_total);
        proof {
            assert(prow * self.k_total - weights.len() == (prow - rows) * self.k_total);
        }
        PaddedCall { prow, xs: padded, ids: more, weights: zeroed }
    }

    /// Settles a call on a compiled layer. `ran` says that the inputs were taken and the
    /// run ended; the profile is looked at only where the required kernel is not known
    /// to run yet. The first thing wrong decides, and whatever is wrong counts as a
    /// fallback.
    pub fn forward_settled(
        &mut self,
        lid: u32,
        rows: usize,
        prow: usize,
        ran: bool,
        profile: &str,
        output: Option<&[u8]>,
        ns: u64,
    ) -> (r: ForwardOutcome)
        requires
            old(self).wf(),
            rows <= prow,
            prow * old(self).hidden <= usize::MAX,
        ensures
            final(self).wf(),
            final(self).same_config(*old(self)),
            final(self).compiled == old(self).compiled,
            final(self).exponents == old(self).exponents,
            ({
                let fine = old(self).shows_kernel(lid, profile@);
                let out = device_words(output);
                let n = prow * old(self).hidden;
                let kept = out->0.take(rows * old(self).hidden);
                &&& r is CallFailed <==> !ran || (fine && out is None)
                &&& r is NotFused <==> ran && !fine
                &&& r is WrongLength <==> ran && fine && out is Some && out->0.len() != n
                &&& r is NotFinite <==> ran && fine && out is Some && out->0.len() == n
                    && !all_finite(kept)
                &&& r is Done ==> r->Done_0@ == kept
            }),
            r matches ForwardOutcome::CallFailed { report } ==> report == !old(self).noted.has(
                lid as u64,
            ),
            r matches ForwardOutcome::NotFinite { report } ==> report == !old(self).noted.has(
                lid as u64,
            ),
            r matches ForwardOutcome::NotFused { report } ==> report == !old(self).gave_up(lid),
            r matches ForwardOutcome::WrongLength { report } ==> report == !old(self).gave_up(lid),
            forall|l: u64|
                #[trigger] final(self).failed.has(l) <==> old(self).failed.has(l) || (l == lid && (
                r is NotFused || r is WrongLength)),
            forall|l: u64|
                #[trigger] final(self).noted.has(l) <==> old(self).noted.has(l) || (l == lid && (
                r is CallFailed || r is NotFinite)),
            forall|l: u64|
                #[trigger] final(self).fused.has(l) <==> old(self).fused.has(l) || (l == lid && ran
                    && old(self).require_fused && profile_fused(profile@)),
            if ran && old(self).require_fused && !old(self).fused.has(lid as u64) && profile_fused(
                profile@,
            ) {
                kept(old(self).profiles@, final(self).profiles@, lid, profile@)
            } else {
                final(self).profiles == old(self).profiles
            },
            r is Done ==> final(self).stats == (OvMoeStats {
                calls: old(self).stats.calls.wrapping_add(1),
                rows: old(self).stats.rows.wrapping_add(rows as u64),
                call_ns: old(self).stats.call_ns.wrapping_add(ns),
                ..old(self).stats
            }),
            !(r is Done) ==> final(self).stats == (OvMoeStats {
                fallbacks: old(self).stats.fallbacks.wrapping_add(1),
                nonfinite: if r is NotFinite {
                    old(self).stats.nonfinite.wrapping_add(1)
                } else {
                    old(self).stats.nonfinite
                },
                ..old(self).stats
            }),
    {
        if !ran {
            let report: bool = self.call_failed(lid);
            return ForwardOutcome::CallFailed { report };
        }
        if self.needs_profile(lid) {
            let (fused, report): (bool, bool) = self.fusion_settled(lid, profile);
            if !fused {
                return ForwardOutcome::NotFused { report };
            }
        }
        match output {
            None => {
                let report: bool = self.call_failed(lid);
                ForwardOutcome::CallFailed { report }
            },
            Some(b) => {
                let out: Vec<u32> = words(b);
                match self.settle_output(lid, out, rows, prow) {
                    OutputOutcome::WrongLength { report } => ForwardOutcome::WrongLength { report },
                    OutputOutcome::NotFinite { report } => ForwardOutcome::NotFinite { report },
                    OutputOutcome::Accepted(v) => {
                        self.call_done(rows, ns);
                        ForwardOutcome::Done(v)
                    },
                }
            },
        }
    }
}

/// A call decodes between 1 and 32 rows: as many as asked for within these bounds, and
/// one where nothing readable is asked for.
pub proof fn law_decode_rows_within_bounds(setting: Option<&str>)
    ensures
        1 <= decode_rows_of(setting) <= 32,
        setting is None ==> decode_rows_of(setting) == 1,
        setting matches Some(s) ==> match text::decimal(text::trimmed(s@)) {
            Some(n) => {
                &&& 1 <= n <= 32 ==> decode_rows_of(setting) == n
                &&& 32 < n <= usize::MAX ==> decode_rows_of(setting) == 32
                &&& n == 0 || n > usize::MAX ==> decode_rows_of(setting) == 1
            },
            None => decode_rows_of(setting) == 1,
        },
{
}

/// There is always a bucket of 32 rows. Where none is asked for there are those of 2, 8,
/// 16 and 24 rows too; else those that are asked for, from 1 row up.
pub proof fn law_buckets_of_a_setting(setting: Option<&str>, b: int)
    ensures
        is_bucket(setting, 32),
        is_bucket(setting, b) ==> 1 <= b <= 32,
        is_bucket(None, b) <==> b == 2 || b == 8 || b == 16 || b == 24 || b == 32,
        setting matches Some(s) && 1 <= b <= 32 && text::numbers_among(
            text::pieces(s@, ','),
            usize::MAX as nat,
        ).contains(b as nat) ==> is_bucket(setting, b),
{
    assert(forall|c: int| !#[trigger] asked_buckets(None, c));
}

/// Above 1 and below infinity the result has no fraction digits, is no less than the
/// value and less than twice it. Everything else gives 1.
pub proof fn law_power_of_two_above(v: u32, r: u32)
    requires
        pow2_above(v, r),
    ensures
        r % 0x80_0000 == 0,
        0x3f80_0000 < v < 0x7f80_0000 ==> v <= r && (r - 0x80_0000) < v && r <= 0x7f80_0000,
        v <= 0x3f80_0000 || v >= 0x7f80_0000 ==> r == 0x3f80_0000,
{
}

/// Multiplying by a power of two adds to the exponent alone, up to infinity.
pub proof fn law_factor_adds_to_the_exponent(row: u32, n: u64)
    requires
        n <= 16,
        0x80_0000 <= row <= 0x7f80_0000,
    ensures
        factor_of(row, n) <= 0x7f80_0000,
        factor_of(row, n) < 0x7f80_0000 ==> factor_of(row, n) % 0x80_0000 == row as int % 0x80_0000
            && factor_of(row, n) / 0x80_0000 == row as int / 0x80_0000 + n,
        factor_of(row, n) == 0x7f80_0000 ==> row as int / 0x80_0000 + n >= 255,
{
}

/// Exponents up to 16 are taken as they are; anything else is none.
pub proof fn law_scale_exponent_is_bounded(field: Option<u64>)
    ensures
        scale_exponent(field) <= 16,
        field matches Some(n) && n <= 16 ==> scale_exponent(field) == field->0,
        !(field matches Some(n) && n <= 16) ==> scale_exponent(field) == 0,
{
}

/// Padding keeps every row and repeats the last one until the padded count is reached.
pub proof fn law_padding_repeats_the_last_row(
    v: Seq<u32>,
    rows: int,
    prow: int,
    width: int,
    r: int,
    c: int,
)
    requires
        0 < rows <= prow,
        0 <= c < width,
        v.len() == rows * width,
        0 <= r < prow,
    ensures
        padded_with_last(v, rows, prow, width).len() == prow * width,
        r < rows ==> padded_with_last(v, rows, prow, width)[r * width + c] == v[r * width + c],
        r >= rows ==> padded_with_last(v, rows, prow, width)[r * width + c] == v[(rows - 1) * width
            + c],
{
    assert(0 <= r * width && r * width + c < prow * width) by (nonlinear_arith)
        requires
            0 <= r < prow,
            0 <= c < width,
    ;
    assert(r < rows ==> r * width + c < rows * width) by (nonlinear_arith)
        requires
            0 <= c < width,
    ;
    assert(r >= rows ==> r * width + c >= rows * width) by (nonlinear_arith)
        requires
            0 <= c < width,
    ;
    vstd::arithmetic::div_mod::lemma_fundamental_div_mod_converse(r * width + c, width, r, c);
}

/// The time of a line is the number in its fourth tab-separated field, zero where there
/// is none; the times of all lines add up.
pub proof fn law_times_are_in_the_fourth_field(
    lines: Seq<Seq<char>>,
    line: Seq<char>,
    a: Seq<char>,
    b: Seq<char>,
    c: Seq<char>,
    d: Seq<char>,
)
    ensures
        lines_time(Seq::empty()) == 0,
        lines_time(lines.push(line)) == lines_time(lines) + line_time(line),
        text::pieces(line, '\t') == seq![a, b, c, d] ==> (text::decimal(d) matches Some(n) && n
            <= u64::MAX ==> text::decimal(d) == Some(line_time(line))),
        text::pieces(line, '\t').len() <= 3 ==> line_time(line) == 0,
{
    assert(lines.push(line).drop_last() =~= lines);
}

/// A squeezed text is its letters and digits, the letters in lower case.
pub proof fn law_squeezed_text(s: Seq<char>)
    ensures
        squeezed(s) =~= s.filter(
            |c: char|
                97 <= c as u32 <= 122 || 65 <= c as u32 <= 90 || 48 <= c as u32 <= 57,
        ).map_values(|c: char| text::lowered(c)),
    decreases s.len(),
{
    reveal(Seq::filter);
    if s.len() > 0 {
        law_squeezed_text(s.drop_last());
        let keep = |c: char| 97 <= c as u32 <= 122 || 65 <= c as u32 <= 90 || 48 <= c as u32 <= 57;
        let f = |c: char| text::lowered(c);
        let before = s.drop_last().filter(keep);
        if keep(s.last()) {
            assert(before.push(s.last()).map_values(f) =~= before.map_values(f).push(f(s.last())));
        }
    }
}

/// Values are finite where none has its exponent all set.
pub proof fn law_finite_values(v: Seq<u32>)
    ensures
        all_finite(v) <==> forall|i: int|
            0 <= i < v.len() ==> (#[trigger] v[i]) < 0x7f80_0000 || 0x8000_0000 <= v[i]
                < 0xff80_0000,
{
    if all_finite(v) {
        assert forall|i: int| 0 <= i < v.len() implies (#[trigger] v[i]) < 0x7f80_0000
            || 0x8000_0000 <= v[i] < 0xff80_0000 by {
            assert(float_bits::magnitude(v[i]) < INFINITY);
        }
    }
}

/// The exponent that is known of a layer is the first one noted for it.
pub proof fn law_known_exponents(known: Seq<(u32, u64)>, lid: u32)
    ensures
        match known_exponent(known, lid) {
            Some(n) => exists|i: int|
                0 <= i < known.len() && (#[trigger] known[i]) == (lid, n) && forall|x: int|
                    0 <= x < i ==> (#[trigger] known[x]).0 != lid,
            None => forall|x: int| 0 <= x < known.len() ==> (#[trigger] known[x]).0 != lid,
        },
    decreases known.len(),
{
    if known.len() > 0 {
        if known[0].0 == lid {
            assert(known[0] == (lid, known[0].1));
        } else {
            let d = known.drop_first();
            law_known_exponents(d, lid);
            assert forall|x: int| 1 <= x < known.len() implies #[trigger] known[x] == d[x - 1] by {}
            match known_exponent(d, lid) {
                Some(n) => {
                    let i = choose|i: int|
                        0 <= i < d.len() && (#[trigger] d[i]) == (lid, n) && forall|x: int|
                            0 <= x < i ==> (#[trigger] d[x]).0 != lid;
                    assert(known[i + 1] == (lid, n));
                    assert forall|x: int| 0 <= x < i + 1 implies (#[trigger] known[x]).0 != lid by {
                        if x > 0 {
                            assert(d[x - 1].0 != lid);
                        }
                    }
                },
                None => {
                    assert forall|x: int| 0 <= x < known.len() implies (#[trigger] known[x]).0
                        != lid by {
                        if x > 0 {
                            assert(d[x - 1].0 != lid);
                        }
                    }
                },
            }
        }
    }
}

/// Decode kernels run a layer whose folder has them, or that is listed by its number or
/// with all.
pub proof fn law_layers_with_decode_kernels(o: OvMoe, lid: u32, in_folder: bool)
    ensures
        o.decode_layers.all ==> o.decodes(lid, in_folder),
        o.decode_layers.list@.contains(lid as u64) ==> o.decodes(lid, in_folder),
        o.decode_dir && in_folder ==> o.decodes(lid, in_folder),
        !o.decode_layers.all && !o.decode_layers.list@.contains(lid as u64) && !(o.decode_dir
            && in_folder) ==> !o.decodes(lid, in_folder),
{
}

/// A profile shows the fused kernel as soon as one of its lines does, and a line only
/// where it has three fields or more.
pub proof fn law_one_line_shows_the_kernel(profile: Seq<char>, i: int)
    requires
        0 <= i < text::line_pieces(profile).len(),
    ensures
        shows_fusion(text::line_pieces(profile)[i]) ==> profile_fused(profile),
        text::pieces(text::line_pieces(profile)[i], '\t').len() < 3 ==> !shows_fusion(
            text::line_pieces(profile)[i],
        ),
        ({
            let f = text::pieces(text::line_pieces(profile)[i], '\t');
            f.len() >= 3 && f[1] == "MOECompressed"@ && text::holds_text(
                f[2],
                "ocl::moe::moe_3gemm_"@,
            ) ==> profile_fused(profile)
        }),
        ({
            let f = text::pieces(text::line_pieces(profile)[i], '\t');
            f.len() >= 3 && (text::holds_text(squeezed(f[1]), "moe3gemmfusedcompressed"@)
                || text::holds_text(squeezed(f[2]), "moe3gemmfusedcompressed"@)) ==> profile_fused(
                profile,
            )
        }),
{
}

/// Where the fused kernel is required, a layer shows it once it is known to run it or the
/// profile of the call does; where it is not, every layer passes.
pub proof fn law_layers_that_show_the_kernel(o: OvMoe, lid: u32, profile: Seq<char>)
    ensures
        !o.require_fused ==> o.shows_kernel(lid, profile),
        o.require_fused ==> (o.shows_kernel(lid, profile) <==> o.fused.has(lid as u64)
            || profile_fused(profile)),
        described_exponent(None) == 0,
{
}

/// A kept profile stands behind those that were kept before, which stay.
pub proof fn law_profiles_are_kept_in_order(
    before: Seq<(u32, String)>,
    after: Seq<(u32, String)>,
    lid: u32,
    profile: Seq<char>,
    i: int,
)
    requires
        kept(before, after, lid, profile),
        0 <= i < before.len(),
    ensures
        after.len() == before.len() + 1,
        after[i] == before[i],
        after[before.len() as int].0 == lid,
        after[before.len() as int].1@ == profile,
{
    assert(after.drop_last()[i] == after[i]);
}

/// The configuration of a backend is what it was made with: none of it changes in a call.
pub proof fn law_configurations_that_agree(a: OvMoe, b: OvMoe)
    ensures
        a.same_config(b) <==> a.hidden == b.hidden && a.k_total == b.k_total && a.n_experts
            == b.n_experts && a.offload == b.offload && a.require_fused == b.require_fused
            && a.decode_dir == b.decode_dir && a.decode_layers == b.decode_layers && a.decode_rows
            == b.decode_rows && a.buckets == b.buckets,
{
}

/// The values of a device come as bytes, four to a value with the lowest first.
pub proof fn law_values_of_a_device(b: &[u8], i: int)
    requires
        0 <= i < b@.len() / 4,
    ensures
        device_words(None) is None,
        device_words(Some(b)) matches Some(w) && w.len() == b@.len() / 4 && w[i] == b@[4 * i] + 256
            * b@[4 * i + 1] + 0x1_0000 * b@[4 * i + 2] + 0x100_0000 * b@[4 * i + 3],
{
    bytes::law_words_lie_side_by_side(b@, i);
}

} // verus!
