//! The latent mixture of experts: where an expert's bytes come from, how its sections
//! lie, and how a batch of rows shares one read of each expert.
//!
//! A batch is inverted into one visit per distinct expert. A visit gathers the rows that
//! chose the expert, and its outputs are staged at their gate slots, so that every row
//! adds up in gate order exactly as a single token does.
use vstd::prelude::*;

use crate::inkling::ffn;
use crate::inkling::gate::GateOut;
use crate::inkling::moe_block::{self, BlockPlan};
use crate::k3::expert_fp4::{self, expert_bytes, section_bytes};
use crate::k3::residency::page_range;
use crate::text::same_text;

verus! {

/// The shape of one layer. Real numbers are single-precision bits.
#[derive(Clone, Copy)]
pub struct MoeDims {
    /// Index of the layer in the whole model.
    pub layer: u32,
    pub hidden: usize,
    pub latent: usize,
    pub inter: usize,
    pub n_experts: usize,
    pub top_k: usize,
    pub n_shared: usize,
    pub scale: u32,
    pub renormalize: bool,
    pub situ_beta: u32,
    pub situ_linear_beta: Option<u32>,
    pub eps: u32,
    pub use_norm: bool,
}

// ---------------------------------------------------------------------- sources

/// Buffers that hold what `ids` asked for: each is missing or the expert's bytes.
pub open spec fn buffers_hold<E: ExpertSource>(
    source: E,
    ids: Seq<u32>,
    bufs: Seq<Option<Vec<u8>>>,
) -> bool {
    forall|i: int|
        0 <= i < bufs.len() && i < ids.len() && (#[trigger] bufs[i]) is Some ==> bufs[i]->0@
            == source.bytes_of(ids[i] as int)
}

/// Source of the packed bytes of a layer's experts: gate, up and down projection back
/// to back.
pub trait ExpertSource: Sized {
    /// How many experts there are.
    open spec fn count(&self) -> int {
        0
    }

    /// Bytes per expert.
    open spec fn width(&self) -> int {
        0
    }

    /// One expert's bytes.
    open spec fn bytes_of(&self, expert: int) -> Seq<u8> {
        Seq::empty()
    }

    /// The source is in order.
    open spec fn wf(&self) -> bool {
        true
    }

    /// One expert's bytes.
    fn expert_bytes(&self, expert: usize) -> (r: &[u8])
        requires
            self.wf(),
            expert < self.count(),
        ensures
            r@ == self.bytes_of(expert as int),
    ;

    /// Bytes per expert: what one selection streams when nothing is in memory.
    fn stride(&self) -> (n: usize)
        ensures
            n == self.width(),
    ;

    /// A hint that these experts are about to be read. Sources in memory have nothing
    /// to fetch.
    fn prefetch(&self, _experts: &[u32]) {
    }

    /// Reads these experts at once, in their order. A slot without a buffer is served
    /// by `expert_bytes`: this is a way to read, never a condition of being right.
    fn read_batch(&self, experts: &[u32]) -> (r: Vec<Option<Vec<u8>>>)
        requires
            self.wf(),
        ensures
            forall|i: int|
                0 <= i < r.len() && i < experts.len() && (#[trigger] r[i]) is Some ==> r[i]->0@
                    == self.bytes_of(experts[i] as int),
        default_ensures
            r.len() == experts.len(),
            forall|i: int| 0 <= i < r.len() ==> (#[trigger] r[i]) is None,
    {
        let mut r: Vec<Option<Vec<u8>>> = Vec::new();
        let mut i: usize = 0;
        while i < experts.len()
            invariant
                i <= experts.len(),
                r.len() == i,
                forall|j: int| 0 <= j < i ==> (#[trigger] r[j]) is None,
            decreases experts.len() - i,
        {
            r.push(None);
            i += 1;
        }
        r
    }
}

/// A layer's experts in memory, one after the other.
pub struct FlatExperts {
    pub data: Vec<u8>,
    pub stride: usize,
}

impl ExpertSource for FlatExperts {
    open spec fn count(&self) -> int {
        if self.stride == 0 {
            0
        } else {
            self.data.len() as int / self.stride as int
        }
    }

    open spec fn width(&self) -> int {
        self.stride as int
    }

    open spec fn bytes_of(&self, expert: int) -> Seq<u8> {
        ffn::row_of(self.data@, self.stride as int, expert)
    }

    open spec fn wf(&self) -> bool {
        true
    }

    fn expert_bytes(&self, expert: usize) -> (r: &[u8]) {
        proof {
            lemma_fits(self.data.len() as int, self.stride as int, expert as int);
        }
        let start: usize = expert * self.stride;
        vstd::slice::slice_subrange(self.data.as_slice(), start, start + self.stride)
    }

    fn stride(&self) -> (n: usize) {
        self.stride
    }
}

proof fn lemma_fits(len: int, stride: int, e: int)
    requires
        stride > 0,
        len >= 0,
        0 <= e < len / stride,
    ensures
        0 <= e * stride,
        e * stride + stride <= len,
        (e + 1) * stride == e * stride + stride,
{
    vstd::arithmetic::div_mod::lemma_fundamental_div_mod(len, stride);
    assert((e + 1) * stride == e * stride + stride) by (nonlinear_arith);
    assert((e + 1) * stride <= (len / stride) * stride) by (nonlinear_arith)
        requires
            e + 1 <= len / stride,
            stride > 0,
    ;
    assert((len / stride) * stride == stride * (len / stride)) by (nonlinear_arith);
    assert(0 <= e * stride) by (nonlinear_arith)
        requires
            0 <= e,
            stride > 0,
    ;
}

/// The bytes for slot `i` of a list of experts: its buffer where there is one, else the
/// source itself.
pub fn expert_input<'a, E: ExpertSource>(
    source: &'a E,
    ids: &[u32],
    bufs: &'a [Option<Vec<u8>>],
    i: usize,
) -> (r: &'a [u8])
    requires
        source.wf(),
        i < ids.len(),
        ids[i as int] < source.count(),
        buffers_hold(*source, ids@, bufs@),
    ensures
        r@ == source.bytes_of(ids[i as int] as int),
{
    if i < bufs.len() {
        if let Some(b) = &bufs[i] {
            assert(bufs@[i as int] is Some);
            return b.as_slice();
        }
    }
    source.expert_bytes(ids[i] as usize)
}

// ------------------------------------------------------------- the experts' file

/// The shape of a layer's expert file: `n` experts of `stride` bytes.
#[derive(Clone, Copy)]
pub struct MmapExperts {
    pub stride: usize,
    pub n: usize,
}

/// A file of the wrong size.
pub struct SizeMismatch {
    pub expected: usize,
    pub got: usize,
}

/// An expert's place in the file: where it starts and how long it is.
pub open spec fn place_of(f: MmapExperts, expert: int) -> Option<(usize, usize)> {
    if 0 <= expert < f.n {
        Some(((expert * f.stride) as usize, f.stride))
    } else {
        None
    }
}

impl MmapExperts {
    pub open spec fn wf(self) -> bool {
        self.n * self.stride <= usize::MAX
    }

    /// Checks that a file holds exactly `n` experts.
    pub fn open(len: usize, stride: usize, n: usize) -> (r: Result<MmapExperts, SizeMismatch>)
        requires
            n * stride <= usize::MAX,
        ensures
            r is Ok <==> len == n * stride,
            r is Ok ==> r->Ok_0 == (MmapExperts { stride, n }) && r->Ok_0.wf(),
            r is Err ==> r->Err_0 == (SizeMismatch { expected: (n * stride) as usize, got: len }),
    {
        let expected: usize = n * stride;
        if len != expected {
            Err(SizeMismatch { expected, got: len })
        } else {
            Ok(MmapExperts { stride, n })
        }
    }

    /// How many experts the file holds.
    pub fn len(&self) -> (n: usize)
        ensures
            n == self.n,
    {
        self.n
    }

    /// The file holds none.
    pub fn is_empty(&self) -> (b: bool)
        ensures
            b == (self.n == 0),
    {
        self.n == 0
    }

    /// Bytes that a layer streams when nothing of it is in memory.
    pub fn bytes(&self) -> (b: usize)
        requires
            self.wf(),
        ensures
            b == self.n * self.stride,
    {
        self.n * self.stride
    }

    /// An expert's place; nothing for an id that the file does not hold.
    pub fn place(&self, expert: usize) -> (r: Option<(usize, usize)>)
        requires
            self.wf(),
        ensures
            r == place_of(*self, expert as int),
            r matches Some(p) ==> p.0 == expert * self.stride && p.0 + p.1 <= self.n * self.stride,
    {
        if expert >= self.n {
            return None;
        }
        proof {
            assert(expert * self.stride + self.stride <= self.n * self.stride) by (nonlinear_arith)
                requires
                    expert + 1 <= self.n,
            ;
            assert(0 <= expert * self.stride) by (nonlinear_arith);
        }
        Some((expert * self.stride, self.stride))
    }

    /// The whole pages that hold one expert of a map that starts at `base`; nothing for an
    /// expert that is not in the file.
    pub fn prefetch_expert(&self, base: usize, expert: usize, page: usize) -> (r: Option<
        (usize, usize),
    >)
        requires
            self.wf(),
            page > 0,
            base + self.n * self.stride + page <= usize::MAX,
        ensures
            r is Some <==> expert < self.n,
            r matches Some(p) ==> {
                &&& p.0 == (base + expert * self.stride) / page as int * page
                &&& p.0 + p.1 == (base + (expert + 1) * self.stride + page - 1) / page as int * page
            },
    {
        match self.place(expert) {
            Some((at, len)) => {
                proof {
                    assert((expert + 1) * self.stride == expert * self.stride + self.stride)
                        by (nonlinear_arith);
                }
                Some(page_range(base + at, len, page))
            },
            None => None,
        }
    }

    /// Where an expert that is to be locked lies in a map that starts at `base`; nothing for
    /// an expert that is not in the file.
    pub fn pin_expert(&self, base: usize, expert: usize) -> (r: Option<(usize, usize)>)
        requires
            self.wf(),
            base + self.n * self.stride <= usize::MAX,
        ensures
            r is Some <==> expert < self.n,
            r matches Some(p) ==> p.0 == base + expert * self.stride && p.1 == self.stride,
    {
        match self.place(expert) {
            Some((at, len)) => Some((base + at, len)),
            None => None,
        }
    }

    /// The places to hint at before a read: those of the experts that the file holds,
    /// none where hints are off.
    pub fn hints(&self, experts: &[u32], on: bool) -> (r: Vec<(usize, usize)>)
        requires
            self.wf(),
        ensures
            on ==> r@ == hinted(*self, experts@),
            !on ==> r@ == Seq::<(usize, usize)>::empty(),
    {
        let mut r: Vec<(usize, usize)> = Vec::new();
        if !on {
            return r;
        }
        let mut i: usize = 0;
        proof {
            assert(experts@.take(0) =~= Seq::<u32>::empty());
        }
        while i < experts.len()
            invariant
                i <= experts.len(),
                self.wf(),
                r@ == hinted(*self, experts@.take(i as int)),
            decreases experts.len() - i,
        {
            proof {
                assert(experts@.take(i + 1).drop_last() =~= experts@.take(i as int));
            }
            if let Some(p) = self.place(experts[i] as usize) {
                r.push(p);
            }
            i += 1;
        }
        proof {
            assert(experts@.take(i as int) =~= experts@);
        }
        r
    }

    /// The reads of a batch, one slot per expert: nothing where explicit reads are off
    /// or the file does not hold the expert.
    pub fn reads(&self, experts: &[u32], on: bool) -> (r: Vec<Option<(usize, usize)>>)
        requires
            self.wf(),
        ensures
            r.len() == experts.len(),
            forall|i: int|
                0 <= i < r.len() ==> #[trigger] r[i] == if on {
                    place_of(*self, experts[i] as int)
                } else {
                    None
                },
    {
        let mut r: Vec<Option<(usize, usize)>> = Vec::new();
        let mut i: usize = 0;
        while i < experts.len()
            invariant
                i <= experts.len(),
                self.wf(),
                r.len() == i,
                forall|j: int|
                    0 <= j < i ==> #[trigger] r[j] == if on {
                        place_of(*self, experts[j] as int)
                    } else {
                        None
                    },
            decreases experts.len() - i,
        {
            if on {
                r.push(self.place(experts[i] as usize));
            } else {
                r.push(None);
            }
            i += 1;
        }
        r
    }
}

/// The places of the experts that a file holds, in order.
pub open spec fn hinted(f: MmapExperts, experts: Seq<u32>) -> Seq<(usize, usize)>
    decreases experts.len(),
{
    if experts.len() == 0 {
        Seq::empty()
    } else {
        let before = hinted(f, experts.drop_last());
        match place_of(f, experts.last() as int) {
            Some(p) => before.push(p),
            None => before,
        }
    }
}

/// Two experts never share a byte of the file, and all of them lie inside it.
pub proof fn law_experts_do_not_overlap(f: MmapExperts, a: int, b: int)
    requires
        f.wf(),
        0 <= a < b < f.n,
    ensures
        place_of(f, a) is Some && place_of(f, b) is Some,
        (place_of(f, a)->0).0 + (place_of(f, a)->0).1 <= (place_of(f, b)->0).0,
        (place_of(f, b)->0).0 + (place_of(f, b)->0).1 <= f.n * f.stride,
{
    assert(0 <= a * f.stride && a * f.stride + f.stride <= b * f.stride && b * f.stride + f.stride
        <= f.n * f.stride) by (nonlinear_arith)
        requires
            0 <= a < b < f.n,
            f.stride >= 0,
    ;
}

/// A switch that only `0` turns off.
pub fn on_unless_zero(setting: Option<&str>) -> (on: bool)
    ensures
        on == !(setting matches Some(s) && s@ == "0"@),
{
    match setting {
        None => true,
        Some(s) => !same_text(s, "0"),
    }
}

// --------------------------------------------------------------------- sections

/// Where an expert's three sections end: gate, up and down projection.
pub fn section_ends(inter: usize, latent: usize) -> (r: (usize, usize, usize))
    requires
        expert_fp4::expert_size(latent as int, inter as int) <= usize::MAX,
        inter * latent <= usize::MAX,
    ensures
        r.0 == expert_fp4::section_size(inter as int, latent as int),
        r.1 == 2 * expert_fp4::section_size(inter as int, latent as int),
        r.2 == expert_fp4::expert_size(latent as int, inter as int),
{
    proof {
        expert_fp4::lemma_section(inter as int, latent as int);
        expert_fp4::lemma_section(latent as int, inter as int);
        assert(latent * inter == inter * latent) by (nonlinear_arith);
    }
    let gate: usize = section_bytes(inter, latent);
    let whole: usize = expert_bytes(latent, inter);
    (gate, 2 * gate, whole)
}

/// Width of the shared experts' own layer.
pub fn shared_width(d: &MoeDims) -> (n: usize)
    requires
        d.inter * d.n_shared <= usize::MAX,
    ensures
        n == d.inter * d.n_shared,
{
    d.inter * d.n_shared
}

// ---------------------------------------------------------------------- batches

/// One pass over a distinct expert.
pub struct Visit {
    pub expert: u32,
    /// The expert's place in the list of distinct experts, and so of its buffer.
    pub buffer: usize,
    /// The slots that chose the expert.
    pub slots: Vec<usize>,
    /// The row of each slot.
    pub rows: Vec<usize>,
}

/// A visit serves the slots of one distinct expert.
pub open spec fn visit_is(v: Visit, p: BlockPlan, k: int, i: int) -> bool {
    &&& v.expert == p.unique[i]
    &&& v.buffer == i
    &&& v.slots@ == p.occ[p.unique[i] as int]@
    &&& v.rows.len() == v.slots.len()
    &&& forall|j: int| 0 <= j < v.rows.len() ==> #[trigger] v.rows[j] == v.slots[j] / k as usize
}

/// The distinct experts of a batch, ascending: what is read before anything runs.
pub fn distinct_experts(p: &BlockPlan) -> (ids: Vec<u32>)
    requires
        p.occ.len() <= u32::MAX,
        moe_block::lists_used(p.unique@, p.occ@),
    ensures
        ids.len() == p.unique.len(),
        forall|i: int| 0 <= i < ids.len() ==> #[trigger] ids[i] == p.unique[i],
{
    let mut ids: Vec<u32> = Vec::new();
    let mut i: usize = 0;
    while i < p.unique.len()
        invariant
            i <= p.unique.len(),
            p.occ.len() <= u32::MAX,
            moe_block::lists_used(p.unique@, p.occ@),
            ids.len() == i,
            forall|j: int| 0 <= j < i ==> #[trigger] ids[j] == p.unique[j],
        decreases p.unique.len() - i,
    {
        assert(p.unique@[i as int] < p.occ@.len());
        ids.push(p.unique[i] as u32);
        i += 1;
    }
    ids
}

/// The visits of a batch, in the order of the distinct experts.
pub fn batch_visits(p: &BlockPlan, k: usize) -> (r: Vec<Visit>)
    requires
        k > 0,
        p.occ.len() <= u32::MAX,
        moe_block::lists_used(p.unique@, p.occ@),
    ensures
        r.len() == p.unique.len(),
        forall|i: int| 0 <= i < r.len() ==> visit_is(#[trigger] r[i], *p, k as int, i),
{
    let mut r: Vec<Visit> = Vec::new();
    let mut i: usize = 0;
    while i < p.unique.len()
        invariant
            i <= p.unique.len(),
            k > 0,
            p.occ.len() <= u32::MAX,
            moe_block::lists_used(p.unique@, p.occ@),
            r.len() == i,
            forall|j: int| 0 <= j < i ==> visit_is(#[trigger] r[j], *p, k as int, j),
        decreases p.unique.len() - i,
    {
        let e: usize = p.unique[i];
        assert(p.unique@[i as int] < p.occ@.len());
        let hits: &Vec<usize> = &p.occ[e];
        let mut slots: Vec<usize> = Vec::new();
        let mut rows: Vec<usize> = Vec::new();
        let mut j: usize = 0;
        while j < hits.len()
            invariant
                j <= hits.len(),
                k > 0,
                slots@ =~= hits@.take(j as int),
                rows.len() == j,
                forall|x: int| 0 <= x < j ==> #[trigger] rows[x] == slots[x] / k,
            decreases hits.len() - j,
        {
            slots.push(hits[j]);
            rows.push(hits[j] / k);
            j += 1;
        }
        proof {
            assert(hits@.take(j as int) =~= hits@);
        }
        r.push(Visit { expert: e as u32, buffer: i, slots, rows });
        i += 1;
    }
    r
}

/// The rows that a visit runs on, one after the other.
pub fn gather_rows(lat: &[u32], latent: usize, rows: &[usize]) -> (x: Vec<u32>)
    requires
        rows.len() * latent <= usize::MAX,
        forall|i: int| 0 <= i < rows.len() ==> ((#[trigger] rows[i]) + 1) * latent <= lat.len(),
    ensures
        x.len() == rows.len() * latent,
        forall|i: int|
            0 <= i < rows.len() ==> ffn::row_of(x@, latent as int, i) == ffn::row_of(
                lat@,
                latent as int,
                (#[trigger] rows[i]) as int,
            ),
{
    let mut x: Vec<u32> = Vec::new();
    let mut i: usize = 0;
    while i < rows.len()
        invariant
            i <= rows.len(),
            rows.len() * latent <= usize::MAX,
            forall|j: int| 0 <= j < rows.len() ==> ((#[trigger] rows[j]) + 1) * latent <= lat.len(),
            x.len() == i * latent,
            forall|j: int|
                0 <= j < i ==> ffn::row_of(x@, latent as int, j) == ffn::row_of(
                    lat@,
                    latent as int,
                    (#[trigger] rows[j]) as int,
                ),
        decreases rows.len() - i,
    {
        let r: usize = rows[i];
        proof {
            assert((r + 1) * latent == r * latent + latent && (i + 1) * latent == i * latent + latent
                && 0 <= r * latent) by (nonlinear_arith);
            assert((rows[i as int] + 1) * latent <= lat.len());
        }
        let start: usize = r * latent;
        let ghost before = x@;
        let mut c: usize = 0;
        while c < latent
            invariant
                c <= latent,
                start == r * latent,
                start + latent <= lat.len(),
                x@ =~= before + lat@.subrange(start as int, start + c),
            decreases latent - c,
        {
            x.push(lat[start + c]);
            c += 1;
        }
        proof {
            assert forall|j: int| 0 <= j < i + 1 implies ffn::row_of(x@, latent as int, j)
                == ffn::row_of(lat@, latent as int, (#[trigger] rows[j]) as int) by {
                if j < i {
                    assert(0 <= j * latent && (j + 1) * latent == j * latent + latent && (j + 1)
                        * latent <= i * latent) by (nonlinear_arith)
                        requires
                            0 <= j < i,
                    ;
                    assert(ffn::row_of(x@, latent as int, j) =~= ffn::row_of(
                        before,
                        latent as int,
                        j,
                    ));
                } else {
                    assert(ffn::row_of(x@, latent as int, j) =~= lat@.subrange(
                        start as int,
                        start + latent,
                    ));
                    assert(ffn::row_of(lat@, latent as int, r as int) =~= lat@.subrange(
                        start as int,
                        start + latent,
                    ));
                }
            }
        }
        i += 1;
    }
    x
}

/// Each distinct expert is read once however many rows chose it, and the buffer that a
/// visit takes is that of its own expert.
pub proof fn law_buffers_line_up(p: BlockPlan, ids: Seq<u32>, visits: Seq<Visit>, k: int)
    requires
        moe_block::lists_used(p.unique@, p.occ@),
        ids.len() == p.unique.len(),
        forall|i: int| 0 <= i < ids.len() ==> #[trigger] ids[i] == p.unique[i],
        visits.len() == p.unique.len(),
        forall|i: int| 0 <= i < visits.len() ==> visit_is(#[trigger] visits[i], p, k, i),
    ensures
        forall|i: int, j: int|
            0 <= i < j < ids.len() ==> (#[trigger] ids[i]) < (#[trigger] ids[j]),
        forall|i: int|
            0 <= i < visits.len() ==> ids[(#[trigger] visits[i]).buffer as int] == visits[i].expert,
{
    assert forall|i: int, j: int| 0 <= i < j < ids.len() implies (#[trigger] ids[i]) < (
    #[trigger] ids[j]) by {
        assert(p.unique@[i] < p.unique@[j]);
    }
    assert forall|i: int| 0 <= i < visits.len() implies ids[(
    #[trigger] visits[i]).buffer as int] == visits[i].expert by {
        assert(visit_is(visits[i], p, k, i));
    }
}

/// A row of a batch runs through exactly the experts of its own forward pass: rank `j` of
/// the row is served once, by the visit of the expert that the row selected, on the row's own
/// input and from the expert's own buffer; its weights add up in the order of the selection.
/// Every distinct expert is read once, in ascending order.
pub proof fn law_batch_row_runs_its_own_experts(
    p: BlockPlan,
    gates: Seq<GateOut>,
    n: int,
    k: int,
    ids: Seq<u32>,
    visits: Seq<Visit>,
    row: int,
    j: int,
)
    requires
        0 < k <= usize::MAX,
        gates.len() * k <= usize::MAX,
        moe_block::gates_fit(gates, n, 0, k),
        moe_block::plan_is(p, gates, n, 0, k),
        ids.len() == p.unique.len(),
        forall|i: int| 0 <= i < ids.len() ==> #[trigger] ids[i] == p.unique[i],
        visits.len() == p.unique.len(),
        forall|i: int| 0 <= i < visits.len() ==> visit_is(#[trigger] visits[i], p, k, i),
        0 <= row < gates.len(),
        0 <= j < k,
    ensures
        exists|v: int, i: int|
            #![trigger visits[v].slots[i]]
            0 <= v < visits.len() && 0 <= i < visits[v].slots.len() && visits[v].slots[i]
                == moe_block::at(row, k, j) && visits[v].rows[i] == row && visits[v].expert
                == gates[row].idx[j] && ids[visits[v].buffer as int] == visits[v].expert,
        forall|v: int, i: int, w: int, x: int|
            0 <= v < visits.len() && 0 <= i < visits[v].slots.len() && 0 <= w < visits.len() && 0
                <= x < visits[w].slots.len() && #[trigger] visits[v].slots[i]
                == #[trigger] visits[w].slots[x] ==> v == w && i == x,
        ({
            let (weight, term) = moe_block::row_terms_of(p, row, k, 0, 0)[j];
            (moe_block::term_expert(gates, k, n, term), weight) == moe_block::token_terms(
                gates[row],
                n,
            )[j]
        }),
        moe_block::row_terms_of(p, row, k, 0, 0).len() == moe_block::token_terms(
            gates[row],
            n,
        ).len(),
        forall|a: int, b: int|
            0 <= a < b < ids.len() ==> (#[trigger] ids[a]) < (#[trigger] ids[b]),
{
    let s = moe_block::at(row, k, j);
    moe_block::lemma_at(row, k, j, gates.len() as int);
    moe_block::law_each_slot_is_served_once(p, gates, n, 0, k);
    moe_block::law_block_adds_up_like_one_token(p, gates, n, 0, k, row, j);
    law_buffers_line_up(p, ids, visits, k);
    let e = gates[row].idx[j];
    assert(moe_block::slot_expert(gates, k, s) == e);
    assert(p.unique@.contains(e));
    let v = choose|v: int| 0 <= v < p.unique@.len() && p.unique@[v] == e;
    assert(visit_is(visits[v], p, k, v));
    assert(p.occ@[e as int]@.contains(s as usize));
    let i = choose|i: int| 0 <= i < p.occ@[e as int]@.len() && p.occ@[e as int]@[i] == s as usize;
    assert(visits[v].slots[i] == s);
    assert(visits[v].rows[i] == s as usize / k as usize);
    assert forall|v: int, i: int, w: int, x: int|
        0 <= v < visits.len() && 0 <= i < visits[v].slots.len() && 0 <= w < visits.len() && 0 <= x
            < visits[w].slots.len() && #[trigger] visits[v].slots[i]
            == #[trigger] visits[w].slots[x] implies v == w && i == x by {
        assert(visit_is(visits[v], p, k, v));
        assert(visit_is(visits[w], p, k, w));
        let a = p.unique@[v] as int;
        let b = p.unique@[w] as int;
        assert(p.occ@[a][i] == visits[v].slots[i]);
        assert(p.occ@[b][x] == visits[w].slots[x]);
        assert(a == b && i == x);
        if v < w {
            assert(p.unique@[v] < p.unique@[w]);
        } else if w < v {
            assert(p.unique@[w] < p.unique@[v]);
        }
    }
}

/// A row of a batch comes out bit for bit as it does in a forward pass of its own: what is
/// added up, and in which order, are the weights of the row's own selection and what its own
/// experts give for its own input, for whatever function `run` makes an output of an expert's
/// bytes and a row, and whatever function `add_up` makes one of weights and rows.
pub proof fn law_batch_row_is_bit_for_bit_its_own_pass(
    p: BlockPlan,
    gates: Seq<GateOut>,
    n: int,
    k: int,
    visits: Seq<Visit>,
    done: Seq<(usize, Vec<u32>)>,
    slots: Seq<u32>,
    lat: Seq<u32>,
    latent: int,
    bytes: spec_fn(int) -> Seq<u8>,
    run: spec_fn(Seq<u8>, Seq<u32>) -> Seq<u32>,
    shared: spec_fn(int, int) -> Seq<u32>,
    add_up: spec_fn(Seq<(u32, Seq<u32>)>) -> Seq<u32>,
    row: int,
)
    requires
        0 < k <= usize::MAX,
        gates.len() * k <= usize::MAX,
        moe_block::gates_fit(gates, n, 0, k),
        moe_block::plan_is(p, gates, n, 0, k),
        visits.len() == p.unique.len(),
        forall|v: int| 0 <= v < visits.len() ==> visit_is(#[trigger] visits[v], p, k, v),
        done.len() == visits.len(),
        forall|v: int| 0 <= v < done.len() ==> (#[trigger] done[v]).0 == visits[v].expert,
        forall|v: int, i: int|
            0 <= v < visits.len() && 0 <= i < visits[v].rows.len() ==> ffn::row_of(
                done[v].1@,
                latent,
                i,
            ) == run(
                bytes(visits[v].expert as int),
                ffn::row_of(lat, latent, (#[trigger] visits[v].rows[i]) as int),
            ),
        moe_block::all_scattered(slots, done, p.occ@, latent),
        0 <= row < gates.len(),
    ensures
        moe_block::row_values(p, slots, shared, row, k, 0, latent) == own_values(
            gates[row],
            bytes,
            run,
            ffn::row_of(lat, latent, row),
        ),
        add_up(moe_block::row_values(p, slots, shared, row, k, 0, latent)) == add_up(
            own_values(gates[row], bytes, run, ffn::row_of(lat, latent, row)),
        ),
{
    let out = |e: int, r: int| run(bytes(e), ffn::row_of(lat, latent, r));
    assert(moe_block::visits_give(done, p, k, latent, out)) by {
        assert forall|v: int| 0 <= v < done.len() implies (#[trigger] done[v]).0 == p.unique[v] by {
            assert(visit_is(visits[v], p, k, v));
        }
        assert forall|v: int, i: int|
            0 <= v < done.len() && 0 <= i < p.occ[done[v].0 as int].len() implies ffn::row_of(
            done[v].1@,
            latent,
            i,
        ) == out(done[v].0 as int, #[trigger] p.occ[done[v].0 as int][i] as int / k) by {
            assert(visit_is(visits[v], p, k, v));
            assert(done[v].0 == p.unique[v]);
            assert(visits[v].slots@[i] == p.occ[done[v].0 as int]@[i]);
            assert(visits[v].rows[i] == visits[v].slots[i] / k as usize);
        }
    }
    moe_block::law_block_row_adds_up_like_its_token(
        p,
        gates,
        n,
        0,
        k,
        done,
        slots,
        shared,
        latent,
        out,
        row,
    );
    assert(moe_block::gate_fits(gates[row], n, 0, k));
    assert(moe_block::token_values(gates[row], n, out, row) =~= own_values(
        gates[row],
        bytes,
        run,
        ffn::row_of(lat, latent, row),
    ));
}

/// What a forward pass of one row adds up, in the order of its selection.
pub open spec fn own_values(
    g: GateOut,
    bytes: spec_fn(int) -> Seq<u8>,
    run: spec_fn(Seq<u8>, Seq<u32>) -> Seq<u32>,
    x: Seq<u32>,
) -> Seq<(u32, Seq<u32>)> {
    Seq::new(g.idx@.len(), |j: int| (g.w[j], run(bytes(g.idx[j] as int), x)))
}

/// A selection that keeps only the first experts of each row touches no expert that the
/// full one does not.
pub proof fn law_narrower_routing_touches_no_more(
    full: Seq<GateOut>,
    low: Seq<GateOut>,
    wide: BlockPlan,
    narrow: BlockPlan,
    n: int,
    k: int,
    j: int,
)
    requires
        0 < j <= k,
        full.len() == low.len(),
        full.len() * k <= usize::MAX,
        moe_block::gates_fit(full, n, 0, k),
        moe_block::gates_fit(low, n, 0, j),
        moe_block::plan_is(wide, full, n, 0, k),
        moe_block::plan_is(narrow, low, n, 0, j),
        forall|r: int| 0 <= r < low.len() ==> (#[trigger] low[r]).idx@ == full[r].idx@.take(j),
    ensures
        forall|i: int|
            0 <= i < narrow.unique.len() ==> wide.unique@.contains(#[trigger] narrow.unique[i]),
{
    assert forall|i: int| 0 <= i < narrow.unique.len() implies wide.unique@.contains(
        #[trigger] narrow.unique[i],
    ) by {
        let e = narrow.unique@[i];
        assert(narrow.occ[e as int].len() > 0);
        let s = narrow.occ[e as int]@[0] as int;
        assert(moe_block::lists_slots(narrow.occ[e as int]@, low, j, low.len() * j, e as int));
        assert(moe_block::slot_expert(low, j, s) == e);
        moe_block::lemma_at_split(s, j, low.len() as int);
        let r = s / j;
        let c = s % j;
        assert(low[r].idx@[c] == full[r].idx@[c]);
        moe_block::lemma_at(r, k, c, full.len() as int);
        let t = moe_block::at(r, k, c);
        assert(moe_block::slot_expert(full, k, t) == e);
        moe_block::law_each_slot_is_served_once(wide, full, n, 0, k);
    }
}

/// Experts lie side by side in their file, each `stride` bytes long; there is nothing
/// beyond the last.
pub proof fn law_experts_lie_side_by_side(f: MmapExperts, expert: int)
    requires
        f.wf(),
    ensures
        0 <= expert < f.n ==> match place_of(f, expert) {
            Some((at, len)) => at == expert * f.stride && len == f.stride,
            None => false,
        },
        expert < 0 || expert >= f.n ==> place_of(f, expert) is None,
{
    if 0 <= expert < f.n {
        assert(0 <= expert * f.stride <= f.n * f.stride) by (nonlinear_arith)
            requires
                0 <= expert < f.n,
                0 <= f.stride,
        ;
    }
}

/// Hints are given for the experts that the file holds, in their order.
pub proof fn law_hints_follow_the_experts(f: MmapExperts, experts: Seq<u32>)
    ensures
        hinted(f, experts) =~= experts.filter(|e: u32| e < f.n).map_values(
            |e: u32| ((e * f.stride) as usize, f.stride),
        ),
    decreases experts.len(),
{
    reveal(Seq::filter);
    if experts.len() > 0 {
        law_hints_follow_the_experts(f, experts.drop_last());
        let known = |e: u32| e < f.n;
        let at = |e: u32| ((e * f.stride) as usize, f.stride);
        let before = experts.drop_last().filter(known);
        if known(experts.last()) {
            assert(before.push(experts.last()).map_values(at) =~= before.map_values(at).push(
                at(experts.last()),
            ));
        }
    }
}

/// A row adds up its selected experts in their order, each run on its own bytes and
/// weighted with its own weight.
pub proof fn law_values_of_a_row(
    g: GateOut,
    bytes: spec_fn(int) -> Seq<u8>,
    run: spec_fn(Seq<u8>, Seq<u32>) -> Seq<u32>,
    x: Seq<u32>,
    j: int,
)
    requires
        0 <= j < g.idx.len(),
    ensures
        own_values(g, bytes, run, x).len() == g.idx.len(),
        own_values(g, bytes, run, x)[j].0 == g.w[j],
        own_values(g, bytes, run, x)[j].1 == run(bytes(g.idx[j] as int), x),
{
}

/// A visit runs one expert on the rows of its slots: slot `s` belongs to row `s / k`.
pub proof fn law_a_visit_runs_the_rows_of_its_slots(v: Visit, p: BlockPlan, k: int, i: int, j: int)
    requires
        visit_is(v, p, k, i),
        0 < k <= usize::MAX,
        0 <= j < v.slots.len(),
    ensures
        v.expert == p.unique[i],
        v.buffer == i,
        v.rows.len() == v.slots.len(),
        v.slots@ == p.occ[p.unique[i] as int]@,
        v.rows[j] * k <= v.slots[j] < (v.rows[j] + 1) * k,
{
    let s = v.slots[j] as int;
    assert(v.rows[j] == v.slots[j] / k as usize);
    vstd::arithmetic::div_mod::lemma_fundamental_div_mod(s, k);
    let q = s / k;
    assert((q + 1) * k == k * q + k && q * k == k * q) by (nonlinear_arith);
}

} // verus!
