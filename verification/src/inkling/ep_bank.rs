//! Expert-parallel dispatch, worker side: the bank of experts that one worker
//! holds, and how it serves a frame.
//!
//! A frame is checked in full before anything is computed. Its slots are then
//! grouped by expert, so that a prefill reads each expert once, and every output
//! is placed back at its slot; pads stay zero. Grouping does not change the
//! reply.
use vstd::prelude::*;

use crate::inkling::conv;
use crate::inkling::ep::{self, ChunkPlan, Routed, WorkerPlan};
use crate::inkling::loader::{self, ExpertSet, InklingManifest};
use crate::inkling::ov_expert::OvStats;
use crate::inkling::ov_moe::OvMoeStats;
use crate::text::{self, chars_of, parse_within, same_text};

verus! {

/// A frame as it arrived. Activations are the bits of their numbers.
pub struct ExpertDispatchBody {
    pub layer: u32,
    pub rows: u32,
    pub k: u32,
    pub hidden: Vec<u32>,
    pub hidden_shape: [u32; 3],
    pub ids: Vec<i32>,
    pub ids_shape: [u32; 3],
}

/// Why a frame is answered with an error.
#[derive(Clone, Copy, PartialEq, Eq, Structural, Debug)]
pub enum ServeError {
    DenseLayer { layer: u32 },
    LayerOutOfRange { layer: u32, layers: usize },
    Rows { rows: u32 },
    ZeroSlots,
    HiddenShape,
    IdsShape,
    InvalidId { value: i32 },
    NotOwned { id: usize },
    /// The device gave no output and computing on the host is forbidden.
    CpuFallbackForbidden { id: usize },
    /// The expert's file could not be streamed.
    StreamedRead { id: usize },
}

/// One expert of a frame and the slots that ask for it, ascending.
pub struct ExpertSlots {
    pub id: usize,
    pub slots: Vec<usize>,
}

/// The worker's shard: per layer the ids that it holds, ascending.
pub struct ExpertBank {
    pub layers: Vec<Vec<usize>>,
    pub moe: Vec<bool>,
    pub hidden: usize,
    pub inter: usize,
    pub n_routed: usize,
    pub n_shared: usize,
    pub index: u32,
    pub count: u32,
    /// Whether the bank serves through fused device shards.
    pub fused: bool,
    pub require_gpu: bool,
    pub cpu_calls: u64,
    pub cpu_f16_reference: bool,
    pub wire_f16_replies: u64,
    pub wire_f32_replies: u64,
    pub wire_tensor_bytes: u64,
    pub wire_f32_equivalent_bytes: u64,
}

/// Strictly ascending.
pub open spec fn ascending(ids: Seq<usize>) -> bool {
    forall|i: int, j: int| 0 <= i < j < ids.len() ==> ids[i] < ids[j]
}

/// The first slot whose id is negative or not held, pads aside, or the length.
pub open spec fn first_bad_slot(ids: Seq<i32>, owned: Seq<usize>, pad: i32) -> int
    decreases ids.len(),
{
    if ids.len() == 0 {
        0
    } else {
        let before = first_bad_slot(ids.drop_last(), owned, pad);
        if before < ids.len() - 1 || bad_id(ids.last(), owned, pad) {
            before
        } else {
            ids.len() as int
        }
    }
}

pub open spec fn bad_id(id: i32, owned: Seq<usize>, pad: i32) -> bool {
    id != pad && (id < 0 || !loader::listed(owned, id as usize))
}

/// The slots that hold `id`, ascending.
pub open spec fn slots_of(ids: Seq<i32>, id: int) -> Seq<int>
    decreases ids.len(),
{
    if ids.len() == 0 {
        Seq::empty()
    } else if ids.last() == id {
        slots_of(ids.drop_last(), id).push(ids.len() - 1)
    } else {
        slots_of(ids.drop_last(), id)
    }
}

/// A group holds exactly the slots of its id.
pub open spec fn group_is(g: ExpertSlots, ids: Seq<i32>) -> bool {
    &&& g.slots@.map_values(|s: usize| s as int) =~= slots_of(ids, g.id as int)
    &&& g.slots.len() > 0
}

/// The slots of a frame by expert: one group per id, each complete, and every
/// slot but the pads in one of them.
pub open spec fn grouped(groups: Seq<ExpertSlots>, ids: Seq<i32>, pad: i32) -> bool {
    &&& forall|g: int| 0 <= g < groups.len() ==> group_is(#[trigger] groups[g], ids)
    &&& forall|g: int, f: int|
        0 <= g < f < groups.len() ==> (#[trigger] groups[g]).id != (#[trigger] groups[f]).id
    &&& forall|g: int| 0 <= g < groups.len() ==> (#[trigger] groups[g]).id != pad
    &&& forall|s: int|
        0 <= s < ids.len() && ids[s] != pad ==> exists|g: int|
            0 <= g < groups.len() && (#[trigger] groups[g]).id == #[trigger] ids[s]
}

impl ExpertBank {
    pub open spec fn wf(self) -> bool {
        &&& self.layers.len() == self.moe.len()
        &&& self.hidden <= u32::MAX
        &&& forall|l: int| 0 <= l < self.layers.len() ==> ascending((#[trigger] self.layers[l])@)
    }

    /// Whether layer `l` routes to experts.
    pub open spec fn routes(self, l: int) -> bool {
        0 <= l < self.moe.len() && self.moe[l]
    }

    /// The first reason to refuse a frame.
    pub open spec fn serve_fault(
        self,
        b: ExpertDispatchBody,
        max_batch: usize,
        pad: i32,
    ) -> Option<ServeError> {
        let h = self.hidden;
        if b.layer >= self.layers.len() {
            Some(ServeError::LayerOutOfRange { layer: b.layer, layers: self.layers.len() })
        } else if !self.routes(b.layer as int) {
            Some(ServeError::DenseLayer { layer: b.layer })
        } else if b.rows == 0 || b.rows > max_batch {
            Some(ServeError::Rows { rows: b.rows })
        } else if b.k == 0 {
            Some(ServeError::ZeroSlots)
        } else if b.hidden_shape@ != seq![b.rows, h as u32, 1u32] || b.hidden.len() != b.rows * h {
            Some(ServeError::HiddenShape)
        } else if b.ids_shape@ != seq![b.rows, b.k, 1u32] || b.ids.len() != b.rows * b.k {
            Some(ServeError::IdsShape)
        } else {
            let owned = self.layers[b.layer as int]@;
            let s = first_bad_slot(b.ids@, owned, pad);
            if s >= b.ids.len() {
                None
            } else if b.ids[s] < 0 {
                Some(ServeError::InvalidId { value: b.ids[s] })
            } else {
                Some(ServeError::NotOwned { id: b.ids[s] as usize })
            }
        }
    }

    pub fn is_moe_layer(&self, layer: usize) -> (b: bool)
        ensures
            b == self.routes(layer as int),
    {
        layer < self.moe.len() && self.moe[layer]
    }

    /// The ids held for a layer; none beyond the model.
    pub fn owned_ids(&self, layer: usize) -> (ids: Vec<usize>)
        requires
            self.wf(),
        ensures
            ids@ == if layer < self.layers.len() {
                self.layers[layer as int]@
            } else {
                Seq::empty()
            },
            ascending(ids@),
    {
        if layer < self.layers.len() {
            let ids: Vec<usize> = self.layers[layer].clone();
            proof {
                assert(ids@ =~= self.layers[layer as int]@);
            }
            ids
        } else {
            Vec::new()
        }
    }

    pub fn holds(&self, layer: usize, id: usize) -> (b: bool)
        ensures
            b == (layer < self.layers.len() && loader::listed(self.layers[layer as int]@, id)),
    {
        layer < self.layers.len() && loader::is_listed(&self.layers[layer], id)
    }

    /// Experts held across all layers.
    pub fn n_experts(&self) -> (n: usize)
        requires
            experts_below(self.layers@, self.layers.len() as int) <= usize::MAX,
        ensures
            n == experts_below(self.layers@, self.layers.len() as int),
    {
        let mut n: usize = 0;
        let mut l: usize = 0;
        while l < self.layers.len()
            invariant
                l <= self.layers.len(),
                n == experts_below(self.layers@, l as int),
                experts_below(self.layers@, self.layers.len() as int) <= usize::MAX,
            decreases self.layers.len() - l,
        {
            proof {
                lemma_experts_grow(self.layers@, l + 1, self.layers.len() as int);
            }
            n = n + self.layers[l].len();
            l += 1;
        }
        n
    }

    /// This worker's index among all.
    pub fn index(&self) -> (n: u32)
        ensures
            n == self.index,
    {
        self.index
    }

    pub fn hidden(&self) -> (n: usize)
        ensures
            n == self.hidden,
    {
        self.hidden
    }

    pub fn n_routed(&self) -> (n: usize)
        ensures
            n == self.n_routed,
    {
        self.n_routed
    }

    pub fn n_shared(&self) -> (n: usize)
        ensures
            n == self.n_shared,
    {
        self.n_shared
    }

    pub fn inter(&self) -> (n: usize)
        ensures
            n == self.inter,
    {
        self.inter
    }

    pub fn num_layers(&self) -> (n: usize)
        ensures
            n == self.layers.len(),
    {
        self.layers.len()
    }

    pub fn is_fused(&self) -> (b: bool)
        ensures
            b == self.fused,
    {
        self.fused
    }

    /// Checks a frame and groups its slots by expert.
    pub fn serve(&self, b: &ExpertDispatchBody, max_batch: usize, pad: i32) -> (r: Result<
        Vec<ExpertSlots>,
        ServeError,
    >)
        requires
            self.wf(),
            pad < 0,
        ensures
            match r {
                Err(e) => self.serve_fault(*b, max_batch, pad) == Some(e),
                Ok(groups) => self.serve_fault(*b, max_batch, pad) is None && grouped(
                    groups@,
                    b.ids@,
                    pad,
                ),
            },
    {
        let layer: usize = b.layer as usize;
        if layer >= self.layers.len() {
            return Err(ServeError::LayerOutOfRange { layer: b.layer, layers: self.layers.len() });
        }
        if !self.moe[layer] {
            return Err(ServeError::DenseLayer { layer: b.layer });
        }
        if b.rows == 0 || b.rows as usize > max_batch {
            return Err(ServeError::Rows { rows: b.rows });
        }
        if b.k == 0 {
            return Err(ServeError::ZeroSlots);
        }
        proof {
            assert(0 <= b.rows * self.hidden <= u32::MAX * u32::MAX) by (nonlinear_arith)
                requires
                    0 <= b.rows <= u32::MAX,
                    0 <= self.hidden <= u32::MAX,
            ;
            assert(0 <= b.rows * b.k <= u32::MAX * u32::MAX) by (nonlinear_arith)
                requires
                    0 <= b.rows <= u32::MAX,
                    0 <= b.k <= u32::MAX,
            ;
        }
        if !shape_is(&b.hidden_shape, b.rows, self.hidden as u32) || b.hidden.len() as u128
            != b.rows as u128 * self.hidden as u128 {
            return Err(ServeError::HiddenShape);
        }
        if !shape_is(&b.ids_shape, b.rows, b.k) || b.ids.len() as u128 != b.rows as u128
            * b.k as u128 {
            return Err(ServeError::IdsShape);
        }
        let owned: &Vec<usize> = &self.layers[layer];
        let mut groups: Vec<ExpertSlots> = Vec::new();
        let mut slot: usize = 0;
        while slot < b.ids.len()
            invariant
                self.wf(),
                pad < 0,
                layer == b.layer,
                layer < self.layers.len(),
                owned@ == self.layers[layer as int]@,
                slot <= b.ids.len(),
                self.serve_fault(*b, max_batch, pad) is Some
                    <==> first_bad_slot(b.ids@, owned@, pad) < b.ids.len(),
                self.serve_fault(*b, max_batch, pad) is Some ==> self.serve_fault(
                    *b,
                    max_batch,
                    pad,
                ) == Some(
                    if b.ids[first_bad_slot(b.ids@, owned@, pad)] < 0 {
                        ServeError::InvalidId {
                            value: b.ids[first_bad_slot(b.ids@, owned@, pad)],
                        }
                    } else {
                        ServeError::NotOwned {
                            id: b.ids[first_bad_slot(b.ids@, owned@, pad)] as usize,
                        }
                    },
                ),
                first_bad_slot(b.ids@.take(slot as int), owned@, pad) == slot,
                grouped(groups@, b.ids@.take(slot as int), pad),
            decreases b.ids.len() - slot,
        {
            let id: i32 = b.ids[slot];
            let ghost head = b.ids@.take(slot as int);
            let ghost longer = b.ids@.take(slot + 1);
            proof {
                assert(longer.drop_last() =~= head);
                assert(longer.last() == id);
            }
            if id == pad {
                proof {
                    lemma_pad_keeps_groups(groups@, head, longer, pad);
                }
                slot += 1;
                continue;
            }
            if id < 0 {
                proof {
                    lemma_first_bad_stays(b.ids@, slot + 1, owned@, pad);
                }
                return Err(ServeError::InvalidId { value: id });
            }
            if !loader::is_listed(owned, id as usize) {
                proof {
                    lemma_first_bad_stays(b.ids@, slot + 1, owned@, pad);
                }
                return Err(ServeError::NotOwned { id: id as usize });
            }
            add_slot(&mut groups, id, slot, Ghost(head), pad);
            proof {
                assert(head.push(id) =~= longer);
            }
            slot += 1;
        }
        proof {
            assert(b.ids@.take(b.ids.len() as int) =~= b.ids@);
        }
        Ok(groups)
    }
}

/// Experts of the first `n` layers.
pub open spec fn experts_below(layers: Seq<Vec<usize>>, n: int) -> int
    decreases n,
{
    if n <= 0 {
        0
    } else {
        experts_below(layers, n - 1) + layers[n - 1].len()
    }
}

proof fn lemma_experts_grow(layers: Seq<Vec<usize>>, a: int, b: int)
    requires
        0 <= a <= b <= layers.len(),
    ensures
        experts_below(layers, a) <= experts_below(layers, b),
    decreases b - a,
{
    if a < b {
        lemma_experts_grow(layers, a, b - 1);
    }
}

fn shape_is(shape: &[u32; 3], a: u32, b: u32) -> (r: bool)
    ensures
        r == (shape@ == seq![a, b, 1u32]),
{
    let r: bool = shape[0] == a && shape[1] == b && shape[2] == 1;
    proof {
        if r {
            assert(shape@ =~= seq![a, b, 1u32]);
        } else {
            let want = seq![a, b, 1u32];
            assert(want[0] == a && want[1] == b && want[2] == 1u32);
        }
    }
    r
}

proof fn lemma_first_bad_stays(ids: Seq<i32>, n: int, owned: Seq<usize>, pad: i32)
    requires
        0 <= n <= ids.len(),
        first_bad_slot(ids.take(n), owned, pad) < n,
    ensures
        first_bad_slot(ids, owned, pad) == first_bad_slot(ids.take(n), owned, pad),
    decreases ids.len() - n,
{
    if n == ids.len() {
        assert(ids.take(n) =~= ids);
    } else {
        assert(ids.take(n + 1).drop_last() =~= ids.take(n));
        lemma_first_bad_stays(ids, n + 1, owned, pad);
    }
}

proof fn lemma_pad_keeps_groups(groups: Seq<ExpertSlots>, head: Seq<i32>, longer: Seq<i32>, pad: i32)
    requires
        longer.len() > 0,
        longer.drop_last() == head,
        longer.last() == pad,
        grouped(groups, head, pad),
    ensures
        grouped(groups, longer, pad),
{
    assert forall|g: int| 0 <= g < groups.len() implies group_is(#[trigger] groups[g], longer) by {
        assert(group_is(groups[g], head));
    }
    assert forall|s: int| 0 <= s < longer.len() && longer[s] != pad implies exists|g: int|
        0 <= g < groups.len() && (#[trigger] groups[g]).id == #[trigger] longer[s] by {
        assert(head[s] == longer[s]);
    }
}

/// Puts one more slot into its expert's group.
fn add_slot(
    groups: &mut Vec<ExpertSlots>,
    id: i32,
    slot: usize,
    Ghost(head): Ghost<Seq<i32>>,
    pad: i32,
)
    requires
        id >= 0,
        pad < 0,
        slot == head.len(),
        grouped(old(groups)@, head, pad),
    ensures
        grouped(final(groups)@, head.push(id), pad),
{
    let want: usize = id as usize;
    let ghost longer = head.push(id);
    let ghost before = groups@;
    proof {
        assert(longer.drop_last() =~= head);
    }
    let mut g: usize = 0;
    while g < groups.len()
        invariant
            groups@ == before,
            g <= groups.len(),
            want == id,
            id >= 0,
            pad < 0,
            slot == head.len(),
            longer == head.push(id),
            longer.drop_last() == head,
            grouped(before, head, pad),
            forall|x: int| 0 <= x < g ==> (#[trigger] before[x]).id != want,
        decreases groups.len() - g,
    {
        if groups[g].id == want {
            groups[g].slots.push(slot);
            proof {
                let after = groups@;
                assert forall|x: int| 0 <= x < after.len() implies group_is(
                    #[trigger] after[x],
                    longer,
                ) by {
                    assert(group_is(before[x], head));
                    if x == g {
                        assert(after[x].slots@ =~= before[x].slots@.push(slot));
                        assert(after[x].slots@.map_values(|s: usize| s as int)
                            =~= before[x].slots@.map_values(|s: usize| s as int).push(
                            slot as int,
                        ));
                    } else {
                        assert(after[x] == before[x]);
                        assert(before[x].id != before[g as int].id);
                    }
                }
                lemma_ids_kept(before, after, head, longer, pad, g as int);
            }
            return;
        }
        g += 1;
    }
    let mut slots: Vec<usize> = Vec::new();
    slots.push(slot);
    groups.push(ExpertSlots { id: want, slots });
    proof {
        let after = groups@;
        lemma_absent_id(before, head, pad, id);
        assert forall|x: int| 0 <= x < after.len() implies group_is(#[trigger] after[x], longer) by {
            if x < before.len() {
                assert(after[x] == before[x]);
                assert(group_is(before[x], head));
            } else {
                assert(slots@ =~= seq![slot]);
                assert(slots_of(longer, id as int) =~= seq![slot as int]);
                assert(after[x].slots@.map_values(|s: usize| s as int) =~= seq![slot as int]);
            }
        }
        assert forall|s: int| 0 <= s < longer.len() && longer[s] != pad implies exists|x: int|
            0 <= x < after.len() && (#[trigger] after[x]).id == #[trigger] longer[s] by {
            if s < head.len() {
                assert(head[s] == longer[s]);
                let x = choose|x: int|
                    0 <= x < before.len() && (#[trigger] before[x]).id == head[s];
                assert(after[x] == before[x]);
            } else {
                assert(after[before.len() as int].id == longer[s]);
            }
        }
    }
}

proof fn lemma_ids_kept(
    before: Seq<ExpertSlots>,
    after: Seq<ExpertSlots>,
    head: Seq<i32>,
    longer: Seq<i32>,
    pad: i32,
    g: int,
)
    requires
        after.len() == before.len(),
        forall|x: int| 0 <= x < before.len() ==> (#[trigger] after[x]).id == before[x].id,
        grouped(before, head, pad),
        longer.len() == head.len() + 1,
        longer.drop_last() == head,
        0 <= g < before.len(),
        before[g].id == longer.last(),
        forall|x: int| 0 <= x < after.len() ==> group_is(#[trigger] after[x], longer),
    ensures
        grouped(after, longer, pad),
{
    assert forall|x: int, y: int| 0 <= x < y < after.len() implies (#[trigger] after[x]).id != (
    #[trigger] after[y]).id by {
        assert(before[x].id != before[y].id);
    }
    assert forall|x: int| 0 <= x < after.len() implies (#[trigger] after[x]).id != pad by {
        assert(before[x].id != pad);
    }
    assert forall|s: int| 0 <= s < longer.len() && longer[s] != pad implies exists|x: int|
        0 <= x < after.len() && (#[trigger] after[x]).id == #[trigger] longer[s] by {
        if s < head.len() {
            assert(head[s] == longer[s]);
            let x = choose|x: int| 0 <= x < before.len() && (#[trigger] before[x]).id == head[s];
            assert(after[x].id == longer[s]);
        } else {
            assert(after[g].id == longer[s]);
        }
    }
}

/// An id without a group is in no slot yet.
proof fn lemma_absent_id(groups: Seq<ExpertSlots>, head: Seq<i32>, pad: i32, id: i32)
    requires
        grouped(groups, head, pad),
        id != pad,
        id >= 0,
        forall|x: int| 0 <= x < groups.len() ==> (#[trigger] groups[x]).id != id,
    ensures
        slots_of(head, id as int).len() == 0,
        slots_of(head.push(id), id as int) =~= seq![head.len() as int],
{
    assert forall|s: int| 0 <= s < head.len() implies head[s] != id by {
        if head[s] == id {
            let x = choose|x: int| 0 <= x < groups.len() && (#[trigger] groups[x]).id == head[s];
            assert(groups[x].id == id);
        }
    }
    lemma_no_slots(head, id);
    assert(head.push(id).drop_last() =~= head);
}

proof fn lemma_no_slots(ids: Seq<i32>, id: i32)
    requires
        forall|s: int| 0 <= s < ids.len() ==> ids[s] != id,
    ensures
        slots_of(ids, id as int).len() == 0,
    decreases ids.len(),
{
    if ids.len() > 0 {
        lemma_no_slots(ids.drop_last(), id);
    }
}

// --------------------------------------------------------------------- outputs

/// One output row per slot of every group.
pub open spec fn outputs_match(groups: Seq<ExpertSlots>, ys: Seq<Vec<Vec<u32>>>, h: int) -> bool {
    &&& ys.len() == groups.len()
    &&& forall|g: int| 0 <= g < groups.len() ==> (#[trigger] ys[g]).len() == groups[g].slots.len()
    &&& forall|g: int, j: int|
        0 <= g < groups.len() && 0 <= j < groups[g].slots.len() ==> (#[trigger] ys[g][j]).len()
            == h
}

/// `table` says which output belongs to a slot.
spec fn source_table(
    table: Seq<Option<(usize, usize)>>,
    groups: Seq<ExpertSlots>,
    ids: Seq<i32>,
    done: int,
) -> bool {
    &&& table.len() == ids.len()
    &&& forall|s: int| #![trigger table[s]]
        0 <= s < ids.len() ==> match table[s] {
            None => forall|g: int| 0 <= g < done ==> (#[trigger] groups[g]).id != ids[s],
            Some((g, j)) => g < done && j < groups[g as int].slots.len()
                && groups[g as int].slots[j as int] == s && groups[g as int].id == ids[s],
        }
}

proof fn lemma_slots_of(ids: Seq<i32>, id: int)
    ensures
        forall|j: int|
            0 <= j < slots_of(ids, id).len() ==> 0 <= (#[trigger] slots_of(ids, id)[j]) < ids.len()
                && ids[slots_of(ids, id)[j]] == id,
        forall|s: int|
            0 <= s < ids.len() && #[trigger] ids[s] == id ==> exists|j: int|
                0 <= j < slots_of(ids, id).len() && #[trigger] slots_of(ids, id)[j] == s,
        forall|i: int, j: int|
            0 <= i < j < slots_of(ids, id).len() ==> slots_of(ids, id)[i] < slots_of(ids, id)[j],
    decreases ids.len(),
{
    if ids.len() > 0 {
        let rest = ids.drop_last();
        lemma_slots_of(rest, id);
        let all = slots_of(ids, id);
        let part = slots_of(rest, id);
        assert forall|j: int| 0 <= j < all.len() implies 0 <= (#[trigger] all[j]) < ids.len()
            && ids[all[j]] == id by {
            if j < part.len() {
                assert(all[j] == part[j]);
                assert(rest[part[j]] == ids[part[j]]);
            }
        }
        assert forall|s: int| 0 <= s < ids.len() && #[trigger] ids[s] == id implies exists|j: int|
            0 <= j < all.len() && #[trigger] all[j] == s by {
            if s < rest.len() {
                assert(rest[s] == id);
                let j = choose|j: int| 0 <= j < part.len() && #[trigger] part[j] == s;
                assert(all[j] == s);
            } else {
                assert(all[all.len() - 1] == s);
            }
        }
        assert forall|i: int, j: int| 0 <= i < j < all.len() implies all[i] < all[j] by {
            if j < part.len() {
                assert(part[i] < part[j]);
            } else {
                assert(all[i] == part[i]);
            }
        }
    }
}

fn slot_sources(groups: &Vec<ExpertSlots>, ids: &Vec<i32>, pad: i32) -> (table: Vec<
    Option<(usize, usize)>,
>)
    requires
        grouped(groups@, ids@, pad),
    ensures
        source_table(table@, groups@, ids@, groups.len() as int),
{
    let mut table: Vec<Option<(usize, usize)>> = Vec::new();
    let mut s: usize = 0;
    while s < ids.len()
        invariant
            s <= ids.len(),
            table.len() == s,
            forall|x: int| 0 <= x < s ==> (#[trigger] table[x]) is None,
        decreases ids.len() - s,
    {
        table.push(None);
        s += 1;
    }
    let mut g: usize = 0;
    while g < groups.len()
        invariant
            g <= groups.len(),
            grouped(groups@, ids@, pad),
            source_table(table@, groups@, ids@, g as int),
        decreases groups.len() - g,
    {
        let slots: &Vec<usize> = &groups[g].slots;
        let ghost id = groups[g as int].id as int;
        let ghost held = slots_of(ids@, id);
        let ghost before = table@;
        proof {
            assert(group_is(groups[g as int], ids@));
            lemma_slots_of(ids@, id);
            let m = slots@.map_values(|s: usize| s as int);
            assert forall|j: int| 0 <= j < slots.len() implies (#[trigger] slots[j]) == held[j] by {
                assert(m[j] == held[j]);
            }
            assert(slots.len() == held.len());
        }
        let mut j: usize = 0;
        while j < slots.len()
            invariant
                j <= slots.len(),
                g < groups.len(),
                slots@ == groups[g as int].slots@,
                id == groups[g as int].id,
                held == slots_of(ids@, id),
                slots.len() == held.len(),
                forall|j: int| 0 <= j < slots.len() ==> (#[trigger] slots[j]) == held[j],
                forall|j: int|
                    0 <= j < held.len() ==> 0 <= (#[trigger] held[j]) < ids.len() && ids[held[j]]
                        == id,
                forall|i: int, j: int| 0 <= i < j < held.len() ==> held[i] < held[j],
                table.len() == ids.len(),
                before.len() == ids.len(),
                forall|s: int| #![trigger table[s]]
                    0 <= s < ids.len() ==> if exists|i: int| 0 <= i < j && held[i] == s {
                        table[s] is Some && (table[s]->0).0 == g && (table[s]->0).1 < j
                            && held[(table[s]->0).1 as int] == s
                    } else {
                        table[s] == before[s]
                    },
            decreases slots.len() - j,
        {
            let s: usize = slots[j];
            let ghost now = table@;
            table.set(s, Some((g, j)));
            proof {
                assert(held[j as int] == s);
                assert forall|x: int| #![trigger table[x]] 0 <= x < ids.len() implies if exists|
                    i: int,
                | 0 <= i < j + 1 && held[i] == x {
                    table[x] is Some && (table[x]->0).0 == g && (table[x]->0).1 < j + 1
                        && held[(table[x]->0).1 as int] == x
                } else {
                    table[x] == before[x]
                } by {
                    if x != s {
                        assert(table[x] == now[x]);
                        assert((exists|i: int| 0 <= i < j + 1 && held[i] == x) == (exists|i: int|
                            0 <= i < j && held[i] == x));
                    }
                }
            }
            j += 1;
        }
        proof {
            assert forall|s: int| #![trigger table[s]] 0 <= s < ids.len() implies match table[s] {
                None => forall|f: int| 0 <= f < g + 1 ==> (#[trigger] groups[f]).id != ids[s],
                Some((f, j)) => f < g + 1 && j < groups[f as int].slots.len()
                    && groups[f as int].slots[j as int] == s && groups[f as int].id == ids[s],
            } by {
                if exists|i: int| 0 <= i < slots.len() && held[i] == s {
                    let j = (table[s]->0).1 as int;
                    assert(slots[j] == held[j]);
                } else {
                    assert(table[s] == before[s]);
                    if ids[s] == id {
                        let j = choose|j: int| 0 <= j < held.len() && #[trigger] held[j] == s;
                        assert(0 <= j < slots.len() && held[j] == s);
                    }
                }
            }
        }
        g += 1;
    }
    table
}

fn push_row(out: &mut Vec<u32>, row: &Vec<u32>)
    ensures
        final(out)@ == old(out)@ + row@,
{
    let ghost before = out@;
    let mut i: usize = 0;
    while i < row.len()
        invariant
            i <= row.len(),
            out@ == before + row@.take(i as int),
        decreases row.len() - i,
    {
        out.push(row[i]);
        proof {
            assert(row@.take(i + 1) =~= row@.take(i as int).push(row@[i as int]));
            assert(out@ =~= before + row@.take(i + 1));
        }
        i += 1;
    }
    proof {
        assert(row@.take(row.len() as int) =~= row@);
    }
}

/// A reply: per slot the output of its expert, zeros where the slot is a pad.
pub open spec fn reply_is(
    out: Seq<u32>,
    groups: Seq<ExpertSlots>,
    ys: Seq<Vec<Vec<u32>>>,
    ids: Seq<i32>,
    pad: i32,
    h: int,
) -> bool {
    &&& out.len() == ids.len() * h
    &&& forall|g: int, j: int|
        0 <= g < groups.len() && 0 <= j < groups[g].slots.len() ==> conv::matrix_row(
            out,
            groups[g].slots[j] as int,
            h,
        ) == (#[trigger] ys[g][j])@
    &&& forall|s: int|
        0 <= s < ids.len() && #[trigger] ids[s] == pad ==> conv::matrix_row(out, s, h) =~= Seq::new(
            h as nat,
            |i: int| 0u32,
        )
}

/// Places every output at its slot.
pub fn place_outputs(
    groups: &Vec<ExpertSlots>,
    ys: &Vec<Vec<Vec<u32>>>,
    ids: &Vec<i32>,
    pad: i32,
    h: usize,
) -> (out: Vec<u32>)
    requires
        grouped(groups@, ids@, pad),
        outputs_match(groups@, ys@, h as int),
    ensures
        reply_is(out@, groups@, ys@, ids@, pad, h as int),
{
    let table: Vec<Option<(usize, usize)>> = slot_sources(groups, ids, pad);
    let zero: Vec<u32> = vec![0u32; h];
    let mut out: Vec<u32> = Vec::new();
    let mut s: usize = 0;
    proof {
        assert(zero@ =~= Seq::new(h as nat, |i: int| 0u32));
        assert(0 * h == 0) by (nonlinear_arith);
    }
    while s < ids.len()
        invariant
            s <= ids.len(),
            zero@ == Seq::new(h as nat, |i: int| 0u32),
            source_table(table@, groups@, ids@, groups.len() as int),
            outputs_match(groups@, ys@, h as int),
            out.len() == s * h,
            forall|x: int|
                0 <= x < s ==> #[trigger] conv::matrix_row(out@, x, h as int) == slot_row(
                    table@,
                    ys@,
                    x,
                    h as int,
                ),
        decreases ids.len() - s,
    {
        let ghost before = out@;
        match table[s] {
            None => push_row(&mut out, &zero),
            Some((g, j)) => {
                assert(ys[g as int][j as int].len() == h);
                push_row(&mut out, &ys[g][j]);
            },
        }
        proof {
            let row = slot_row(table@, ys@, s as int, h as int);
            assert(out@ == before + row);
            lemma_rows_kept(before, row, s as int, h as int);
        }
        s += 1;
    }
    proof {
        assert forall|g: int, j: int|
            0 <= g < groups.len() && 0 <= j < groups[g].slots.len() implies conv::matrix_row(
            out@,
            groups[g].slots[j] as int,
            h as int,
        ) == (#[trigger] ys[g][j])@ by {
            assert(group_is(groups[g], ids@));
            lemma_slots_of(ids@, groups[g].id as int);
            let m = groups[g].slots@.map_values(|s: usize| s as int);
            let x = groups[g].slots[j] as int;
            assert(m[j] == slots_of(ids@, groups[g].id as int)[j]);
            assert(ids[x] == groups[g].id);
            assert(table[x] is Some);
            let (f, i) = table[x]->0;
            assert(groups[f as int].id == groups[g].id);
            if f != g {
                if f < g {
                    assert(groups[f as int].id != groups[g].id);
                } else {
                    assert(groups[g].id != groups[f as int].id);
                }
            }
            assert(m[i as int] == slots_of(ids@, groups[g].id as int)[i as int]);
            if i < j {
                assert(m[i as int] < m[j]);
            }
            if j < i {
                assert(m[j] < m[i as int]);
            }
            assert(conv::matrix_row(out@, x, h as int) == slot_row(table@, ys@, x, h as int));
        }
        assert forall|x: int| 0 <= x < ids.len() && #[trigger] ids[x] == pad implies conv::matrix_row(
            out@,
            x,
            h as int,
        ) =~= Seq::new(h as nat, |i: int| 0u32) by {
            assert(conv::matrix_row(out@, x, h as int) == slot_row(table@, ys@, x, h as int));
            if table[x] is Some {
                assert(groups[(table[x]->0).0 as int].id != pad);
            }
        }
    }
    out
}

spec fn slot_row(table: Seq<Option<(usize, usize)>>, ys: Seq<Vec<Vec<u32>>>, s: int, h: int) -> Seq<
    u32,
> {
    match table[s] {
        None => Seq::new(h as nat, |i: int| 0u32),
        Some((g, j)) => ys[g as int][j as int]@,
    }
}

proof fn lemma_rows_kept(before: Seq<u32>, row: Seq<u32>, s: int, h: int)
    requires
        0 <= s,
        0 <= h,
        before.len() == s * h,
        row.len() == h,
    ensures
        (before + row).len() == (s + 1) * h,
        forall|x: int|
            0 <= x < s ==> #[trigger] conv::matrix_row(before + row, x, h) == conv::matrix_row(
                before,
                x,
                h,
            ),
        conv::matrix_row(before + row, s, h) == row,
{
    let after = before + row;
    assert((s + 1) * h == s * h + h) by (nonlinear_arith);
    assert forall|x: int| 0 <= x < s implies #[trigger] conv::matrix_row(after, x, h)
        == conv::matrix_row(before, x, h) by {
        assert(0 <= x * h && (x + 1) * h <= s * h && x * h <= (x + 1) * h) by (nonlinear_arith)
            requires
                0 <= x < s,
                0 <= h,
        ;
        assert(conv::matrix_row(after, x, h) =~= conv::matrix_row(before, x, h));
    }
    assert(0 <= s * h) by (nonlinear_arith)
        requires
            0 <= s,
            0 <= h,
    ;
    assert(conv::matrix_row(after, s, h) =~= row);
}

/// A worker whose every output is `f` of the expert and of the slot's row
/// replies with `f` at every slot that is not a pad.
pub proof fn law_reply_holds_every_output(
    out: Seq<u32>,
    groups: Seq<ExpertSlots>,
    ys: Seq<Vec<Vec<u32>>>,
    ids: Seq<i32>,
    hidden: Seq<u32>,
    k: int,
    pad: i32,
    h: int,
    f: spec_fn(int, Seq<u32>) -> Seq<u32>,
    s: int,
)
    requires
        pad < 0,
        grouped(groups, ids, pad),
        reply_is(out, groups, ys, ids, pad, h),
        ys.len() == groups.len(),
        forall|g: int| 0 <= g < groups.len() ==> (#[trigger] ys[g]).len() == groups[g].slots.len(),
        forall|g: int, j: int|
            0 <= g < groups.len() && 0 <= j < groups[g].slots.len() ==> (#[trigger] ys[g][j])@ == f(
                groups[g].id as int,
                conv::matrix_row(hidden, groups[g].slots[j] as int / k, h),
            ),
        0 <= s < ids.len(),
        ids[s] != pad,
    ensures
        conv::matrix_row(out, s, h) == f(ids[s] as int, conv::matrix_row(hidden, s / k, h)),
{
    let g = choose|g: int| 0 <= g < groups.len() && (#[trigger] groups[g]).id == ids[s];
    assert(group_is(groups[g], ids));
    lemma_slots_of(ids, groups[g].id as int);
    let all = slots_of(ids, groups[g].id as int);
    let j = choose|j: int| 0 <= j < all.len() && #[trigger] all[j] == s;
    let m = groups[g].slots@.map_values(|s: usize| s as int);
    assert(m[j] == s);
    assert(groups[g].slots[j] == s);
    assert(ys[g][j]@ == f(groups[g].id as int, conv::matrix_row(hidden, s / k, h)));
}

/// What the driver reads back for a routed entry is the output of that entry's
/// expert on that entry's row, wherever the expert is placed: the sum in gate
/// order does not depend on the placement.
pub proof fn law_gate_reads_do_not_depend_on_placement(
    chunk: ChunkPlan,
    hidden_rows: Seq<u32>,
    rows: Seq<Seq<Routed>>,
    homes: Seq<usize>,
    n_ids: int,
    n_workers: int,
    h: int,
    pad: i32,
    replies: Seq<Seq<u32>>,
    f: spec_fn(int, Seq<u32>) -> Seq<u32>,
    r: int,
    p: int,
)
    requires
        n_ids <= i32::MAX,
        pad < 0,
        0 <= h,
        ep::routable(rows, homes, n_ids, n_workers),
        ep::chunk_plan_for(chunk, hidden_rows, rows, homes, n_workers, h, pad),
        hidden_rows.len() == rows.len() * h,
        replies.len() == n_workers,
        forall|w: int, s: int| #![trigger conv::matrix_row(replies[w], s, h)]
            0 <= w < n_workers && chunk.shares[w] is Some && 0 <= s < (
            chunk.shares[w]->0).ids.len() && (chunk.shares[w]->0).ids[s] != pad
                ==> conv::matrix_row(replies[w], s, h) == f(
                (chunk.shares[w]->0).ids[s] as int,
                conv::matrix_row(
                    (chunk.shares[w]->0).hidden_rows@,
                    s / (chunk.shares[w]->0).k as int,
                    h,
                ),
            ),
        0 <= r < rows.len(),
        0 <= p < rows[r].len(),
    ensures
        conv::matrix_row(
            replies[homes[rows[r][p].0 as int] as int],
            ep::gate_slot(rows, homes, r, p),
            h,
        ) == f(rows[r][p].0 as int, conv::matrix_row(hidden_rows, r, h)),
{
    ep::law_gate_slot_carries_its_entry(
        chunk,
        hidden_rows,
        rows,
        homes,
        n_ids,
        n_workers,
        h,
        pad,
        r,
        p,
    );
    let w = homes[rows[r][p].0 as int] as int;
    let s = ep::gate_slot(rows, homes, r, p);
    let plan: WorkerPlan = chunk.shares[w]->0;
    let k = plan.k as int;
    let c = s / k;
    assert(conv::matrix_row(replies[w], s, h) == f(
        plan.ids[s] as int,
        conv::matrix_row(plan.hidden_rows@, c, h),
    ));
    ep::lemma_slot_row(chunk, hidden_rows, rows, homes, n_workers, h, pad, r, p);
    let a = conv::matrix_row(plan.hidden_rows@, c, h);
    let b = conv::matrix_row(hidden_rows, r, h);
    assert((c + 1) * h == c * h + h && (r + 1) * h == r * h + h) by (nonlinear_arith);
    assert((r + 1) * h <= rows.len() * h && 0 <= r * h) by (nonlinear_arith)
        requires
            0 <= r < rows.len(),
            0 <= h,
    ;
    assert((c + 1) * h <= plan.rows * h && 0 <= c * h) by (nonlinear_arith)
        requires
            0 <= c < plan.rows,
            0 <= h,
    ;
    assert forall|i: int| 0 <= i < h implies a[i] == b[i] by {
        assert(ep::cell(plan.hidden_rows@, c, h, i) == ep::cell(hidden_rows, r, h, i));
    }
    assert(a =~= b);
}

// -------------------------------------------------------------------- backends

/// Where a slot's output comes from.
#[derive(Clone, Copy, PartialEq, Eq, Structural, Debug)]
pub enum SlotBackend {
    /// The device answered.
    Device,
    /// The device did not answer and the host must not compute.
    Forbidden,
    /// The host computes; `note` asks for the bank's one fallback notice.
    Host { note: bool },
}

/// How the host reads an expert.
#[derive(Clone, Copy, PartialEq, Eq, Structural, Debug)]
pub enum HostRead {
    /// A streamed buffer, through the half precision reference where asked for.
    Streamed { reference: bool },
    /// The whole file read into a buffer.
    Buffered,
    /// The expert's own kernel.
    Direct,
}

/// What the host knows of an expert before it computes.
#[derive(Clone, Copy)]
pub struct HostFacts {
    /// The bank streams experts.
    pub streamed: bool,
    /// The expert is mapped from its file.
    pub mapped: bool,
    /// Reads are kept sequential.
    pub seq_reads: bool,
    /// Most of the expert is already in memory.
    pub mostly_resident: bool,
    /// Whether reading the whole file succeeded, where it was tried.
    pub read_ok: bool,
}

impl ExpertBank {
    /// Everything but the counters and the strict flag.
    pub open spec fn same_shard(self, other: ExpertBank) -> bool {
        &&& self.layers == other.layers
        &&& self.moe == other.moe
        &&& self.hidden == other.hidden
        &&& self.inter == other.inter
        &&& self.n_routed == other.n_routed
        &&& self.n_shared == other.n_shared
        &&& self.index == other.index
        &&& self.count == other.count
        &&& self.fused == other.fused
        &&& self.cpu_f16_reference == other.cpu_f16_reference
    }

    pub open spec fn same_wire(self, other: ExpertBank) -> bool {
        &&& self.wire_f16_replies == other.wire_f16_replies
        &&& self.wire_f32_replies == other.wire_f32_replies
        &&& self.wire_tensor_bytes == other.wire_tensor_bytes
        &&& self.wire_f32_equivalent_bytes == other.wire_f32_equivalent_bytes
    }

    /// Decides who computes a slot. A strict bank never computes on the host.
    pub fn slot_backend(&mut self, answered: bool, attached: bool) -> (b: SlotBackend)
        ensures
            b == if answered {
                SlotBackend::Device
            } else if old(self).require_gpu {
                SlotBackend::Forbidden
            } else {
                SlotBackend::Host { note: old(self).cpu_calls == 0 && attached }
            },
            final(self).cpu_calls == if b is Host {
                old(self).cpu_calls.wrapping_add(1)
            } else {
                old(self).cpu_calls
            },
            final(self).same_shard(*old(self)),
            final(self).same_wire(*old(self)),
            final(self).require_gpu == old(self).require_gpu,
    {
        if answered {
            SlotBackend::Device
        } else if self.require_gpu {
            SlotBackend::Forbidden
        } else {
            let note: bool = self.cpu_calls == 0 && attached;
            self.cpu_calls = self.cpu_calls.wrapping_add(1);
            SlotBackend::Host { note }
        }
    }

    /// Decides how the host reads an expert.
    pub fn host_read(&self, facts: HostFacts) -> (r: HostRead)
        ensures
            r == if facts.streamed && facts.mapped {
                HostRead::Streamed { reference: self.cpu_f16_reference }
            } else if !facts.streamed && facts.mapped && !facts.seq_reads && !facts.mostly_resident
                && facts.read_ok {
                HostRead::Buffered
            } else {
                HostRead::Direct
            },
    {
        if facts.streamed {
            if facts.mapped {
                HostRead::Streamed { reference: self.cpu_f16_reference }
            } else {
                HostRead::Direct
            }
        } else if facts.mapped && !facts.seq_reads && !facts.mostly_resident && facts.read_ok {
            HostRead::Buffered
        } else {
            HostRead::Direct
        }
    }

    /// Counts one reply of `values` numbers.
    pub fn count_reply(&mut self, compact: bool, values: usize)
        requires
            values * 4 <= u64::MAX,
        ensures
            final(self).same_shard(*old(self)),
            final(self).require_gpu == old(self).require_gpu,
            final(self).cpu_calls == old(self).cpu_calls,
            final(self).wire_f16_replies == if compact {
                old(self).wire_f16_replies.wrapping_add(1)
            } else {
                old(self).wire_f16_replies
            },
            final(self).wire_f32_replies == if compact {
                old(self).wire_f32_replies
            } else {
                old(self).wire_f32_replies.wrapping_add(1)
            },
            final(self).wire_tensor_bytes == old(self).wire_tensor_bytes.wrapping_add(
                (values * if compact {
                    2int
                } else {
                    4
                }) as u64,
            ),
            final(self).wire_f32_equivalent_bytes == old(self).wire_f32_equivalent_bytes.wrapping_add((values * 4) as u64),
    {
        if compact {
            self.wire_f16_replies = self.wire_f16_replies.wrapping_add(1);
            self.wire_tensor_bytes = self.wire_tensor_bytes.wrapping_add(values as u64 * 2);
        } else {
            self.wire_f32_replies = self.wire_f32_replies.wrapping_add(1);
            self.wire_tensor_bytes = self.wire_tensor_bytes.wrapping_add(values as u64 * 4);
        }
        self.wire_f32_equivalent_bytes = self.wire_f32_equivalent_bytes.wrapping_add(
            values as u64 * 4,
        );
    }
}

/// Why a bank cannot be made strict.
#[derive(Clone, Copy, PartialEq, Eq, Structural, Debug)]
pub enum GpuError {
    NoDevice,
    NotAGpu,
    QueryFailed,
    MissingIr { layer: usize, id: usize },
}

/// The device that a bank's experts run on.
pub struct DeviceProbe {
    pub device: String,
    /// Whether the device could be queried for its name.
    pub named: bool,
    /// Per layer and held id, whether the device has the expert.
    pub compiled: Vec<Vec<bool>>,
}

/// A concrete GPU: `GPU`, or `GPU.` and more.
pub open spec fn names_gpu(device: Seq<char>) -> bool {
    device == "GPU"@ || (device.len() >= 4 && device.take(4) == "GPU."@)
}

/// Whether a device name is a concrete GPU.
pub fn is_gpu(device: &str) -> (b: bool)
    ensures
        b == names_gpu(device@),
{
    if same_text(device, "GPU") {
        return true;
    }
    let v: Vec<char> = chars_of(device);
    if v.len() < 4 {
        return false;
    }
    proof {
        reveal_strlit("GPU.");
    }
    let b: bool = v[0] == 'G' && v[1] == 'P' && v[2] == 'U' && v[3] == '.';
    proof {
        let head = device@.take(4);
        assert(head[0] == v[0] && head[1] == v[1] && head[2] == v[2] && head[3] == v[3]);
        if b {
            assert(head =~= "GPU."@);
        }
    }
    b
}

/// The first held expert that the device lacks, layer by layer.
pub open spec fn first_missing(layers: Seq<Vec<usize>>, compiled: Seq<Vec<bool>>, n: int) -> Option<
    (int, int),
>
    decreases n,
{
    if n <= 0 {
        None
    } else {
        match first_missing(layers, compiled, n - 1) {
            Some(at) => Some(at),
            None => {
                let i = first_false(compiled[n - 1]@);
                if i < compiled[n - 1].len() {
                    Some((n - 1, i))
                } else {
                    None
                }
            },
        }
    }
}

/// The index of the first `false`, or the length.
pub open spec fn first_false(flags: Seq<bool>) -> int
    decreases flags.len(),
{
    if flags.len() == 0 {
        0
    } else {
        let before = first_false(flags.drop_last());
        if before < flags.len() - 1 || !flags.last() {
            before
        } else {
            flags.len() as int
        }
    }
}

fn find_false(flags: &Vec<bool>) -> (at: usize)
    ensures
        at == first_false(flags@),
        at <= flags.len(),
{
    let mut i: usize = 0;
    while i < flags.len()
        invariant
            i <= flags.len(),
            first_false(flags@.take(i as int)) == i,
        decreases flags.len() - i,
    {
        proof {
            assert(flags@.take(i + 1).drop_last() =~= flags@.take(i as int));
            assert(flags@.take(i + 1).last() == flags[i as int]);
        }
        if !flags[i] {
            proof {
                lemma_first_false_stays(flags@, i + 1);
            }
            return i;
        }
        i += 1;
    }
    proof {
        assert(flags@.take(flags.len() as int) =~= flags@);
    }
    i
}

proof fn lemma_first_false_stays(flags: Seq<bool>, n: int)
    requires
        0 <= n <= flags.len(),
        first_false(flags.take(n)) < n,
    ensures
        first_false(flags) == first_false(flags.take(n)),
    decreases flags.len() - n,
{
    if n == flags.len() {
        assert(flags.take(n) =~= flags);
    } else {
        assert(flags.take(n + 1).drop_last() =~= flags.take(n));
        lemma_first_false_stays(flags, n + 1);
    }
}

proof fn lemma_first_missing_stays(layers: Seq<Vec<usize>>, compiled: Seq<Vec<bool>>, a: int, b: int)
    requires
        0 <= a <= b,
        first_missing(layers, compiled, a) is Some,
    ensures
        first_missing(layers, compiled, b) == first_missing(layers, compiled, a),
    decreases b - a,
{
    if a < b {
        lemma_first_missing_stays(layers, compiled, a, b - 1);
    }
}

/// The probe covers every held expert.
pub open spec fn probe_fits(probe: DeviceProbe, layers: Seq<Vec<usize>>) -> bool {
    &&& probe.compiled.len() == layers.len()
    &&& forall|l: int|
        0 <= l < layers.len() ==> (#[trigger] probe.compiled[l]).len() == layers[l].len()
}

/// What a bank counted, with the counters of the backends behind it.
#[derive(Clone, Copy, PartialEq, Eq, Structural, Debug)]
pub struct BackendStats {
    pub gpu_required: bool,
    pub cpu_calls: u64,
    pub cpu_f16_reference: bool,
    pub wire_f16_replies: u64,
    pub wire_f32_replies: u64,
    pub wire_tensor_bytes: u64,
    pub wire_f32_equivalent_bytes: u64,
    pub uncached_read_bytes: u64,
    pub uncached_read_fallbacks: u64,
    pub ov_successful_calls: u64,
    pub ov_cache_hits: u64,
    pub ov_cache_misses: u64,
    pub ov_fallbacks: u64,
    /// The fused models' counters, where the bank has such models.
    pub fused: Option<OvMoeStats>,
}

impl ExpertBank {
    /// The bank's counters, those of the per-expert backend, zero where there is none, those
    /// of the fused models and the bytes and fallbacks of uncached reads.
    pub fn backend_stats(
        &self,
        ov: Option<OvStats>,
        fused: Option<OvMoeStats>,
        uncached: (u64, u64),
    ) -> (s: BackendStats)
        requires
            ov matches Some(o) ==> o.hits + o.misses <= u64::MAX,
        ensures
            s.gpu_required == self.require_gpu,
            s.cpu_calls == self.cpu_calls,
            s.cpu_f16_reference == self.cpu_f16_reference,
            s.wire_f16_replies == self.wire_f16_replies,
            s.wire_f32_replies == self.wire_f32_replies,
            s.wire_tensor_bytes == self.wire_tensor_bytes,
            s.wire_f32_equivalent_bytes == self.wire_f32_equivalent_bytes,
            (s.uncached_read_bytes, s.uncached_read_fallbacks) == uncached,
            ov matches Some(o) ==> s.ov_successful_calls == o.hits + o.misses && s.ov_cache_hits
                == o.hits && s.ov_cache_misses == o.misses && s.ov_fallbacks == o.fallbacks,
            ov is None ==> s.ov_successful_calls == 0 && s.ov_cache_hits == 0 && s.ov_cache_misses
                == 0 && s.ov_fallbacks == 0,
            s.fused == fused,
    {
        let (hits, misses, fallbacks): (u64, u64, u64) = match ov {
            Some(o) => (o.hits, o.misses, o.fallbacks),
            None => (0, 0, 0),
        };
        BackendStats {
            gpu_required: self.require_gpu,
            cpu_calls: self.cpu_calls,
            cpu_f16_reference: self.cpu_f16_reference,
            wire_f16_replies: self.wire_f16_replies,
            wire_f32_replies: self.wire_f32_replies,
            wire_tensor_bytes: self.wire_tensor_bytes,
            wire_f32_equivalent_bytes: self.wire_f32_equivalent_bytes,
            uncached_read_bytes: uncached.0,
            uncached_read_fallbacks: uncached.1,
            ov_successful_calls: hits + misses,
            ov_cache_hits: hits,
            ov_cache_misses: misses,
            ov_fallbacks: fallbacks,
            fused,
        }
    }
}

impl ExpertBank {
    /// Why this bank cannot promise to compute on a GPU only.
    pub open spec fn gpu_fault(self, probe: Option<DeviceProbe>) -> Option<GpuError> {
        if self.fused {
            None
        } else {
            match probe {
                None => Some(GpuError::NoDevice),
                Some(p) => if !names_gpu(p.device@) {
                    Some(GpuError::NotAGpu)
                } else if !p.named {
                    Some(GpuError::QueryFailed)
                } else {
                    match first_missing(self.layers@, p.compiled@, self.layers.len() as int) {
                        Some((l, i)) => Some(
                            GpuError::MissingIr { layer: l as usize, id: self.layers[l][i] },
                        ),
                        None => None,
                    }
                },
            }
        }
    }

    /// Makes the bank strict: it fails instead of ever computing on the host.
    pub fn require_gpu(&mut self, probe: Option<&DeviceProbe>) -> (r: Result<(), GpuError>)
        requires
            probe matches Some(p) ==> probe_fits(*p, old(self).layers@),
        ensures
            final(self).same_shard(*old(self)),
            final(self).same_wire(*old(self)),
            final(self).cpu_calls == old(self).cpu_calls,
            r == (match old(self).gpu_fault(
                match probe {
                    Some(p) => Some(*p),
                    None => None,
                },
            ) {
                Some(e) => Err::<(), GpuError>(e),
                None => Ok(()),
            }),
            final(self).require_gpu == (r is Ok || old(self).require_gpu),
    {
        if self.fused {
            self.require_gpu = true;
            return Ok(());
        }
        let p: &DeviceProbe = match probe {
            Some(p) => p,
            None => return Err(GpuError::NoDevice),
        };
        if !is_gpu(p.device.as_str()) {
            return Err(GpuError::NotAGpu);
        }
        if !p.named {
            return Err(GpuError::QueryFailed);
        }
        let mut l: usize = 0;
        while l < self.layers.len()
            invariant
                *self == *old(self),
                !self.fused,
                probe == Some(p),
                probe_fits(*p, self.layers@),
                names_gpu(p.device@),
                p.named,
                l <= self.layers.len(),
                first_missing(self.layers@, p.compiled@, l as int) is None,
            decreases self.layers.len() - l,
        {
            let i: usize = find_false(&p.compiled[l]);
            if i < p.compiled[l].len() {
                proof {
                    lemma_first_missing_stays(
                        self.layers@,
                        p.compiled@,
                        l + 1,
                        self.layers.len() as int,
                    );
                }
                return Err(GpuError::MissingIr { layer: l, id: self.layers[l][i] });
            }
            l += 1;
        }
        self.require_gpu = true;
        Ok(())
    }
}

// --------------------------------------------------------------------- loading

/// Switches that a bank is loaded under.
#[derive(Clone, Copy, PartialEq, Eq, Structural, Debug)]
pub struct BankFlags {
    pub own: bool,
    pub cpu_f16_reference: bool,
    pub stream_cpu: bool,
    pub fused: bool,
    pub ov_experts: bool,
}

/// Why a bank cannot be loaded.
#[derive(Clone, Copy, PartialEq, Eq, Structural, Debug)]
pub enum BankError {
    IndexOutOfRange { index: u32, count: u32 },
    ReferenceNeedsStreaming,
    OwningNeedsPlacement,
    FileTooLarge { layer: usize, id: usize },
    ReferenceNeedsMapping,
    FusedOwnsNothing,
    FusedBudget,
}

/// Checks the switches of a worker before anything is opened.
pub fn check_bank_flags(index: u32, count: u32, flags: BankFlags, placed: bool) -> (r: Result<
    (),
    BankError,
>)
    ensures
        r == if count == 0 || index >= count {
            Err::<(), BankError>(BankError::IndexOutOfRange { index, count })
        } else if flags.cpu_f16_reference && (flags.own || !flags.stream_cpu || flags.fused
            || flags.ov_experts) {
            Err(BankError::ReferenceNeedsStreaming)
        } else if flags.own && !placed {
            Err(BankError::OwningNeedsPlacement)
        } else {
            Ok(())
        },
{
    if count == 0 || index >= count {
        return Err(BankError::IndexOutOfRange { index, count });
    }
    if flags.cpu_f16_reference && (flags.own || !flags.stream_cpu || flags.fused
        || flags.ov_experts) {
        return Err(BankError::ReferenceNeedsStreaming);
    }
    if flags.own && !placed {
        return Err(BankError::OwningNeedsPlacement);
    }
    Ok(())
}

/// One opened expert.
#[derive(Clone, Copy)]
pub struct ExpertFacts {
    pub id: usize,
    /// The size of its file, where it is mapped.
    pub mapped_len: Option<u64>,
    /// Packed bytes that it holds itself.
    pub owned_bytes: u64,
}

/// An expert is larger than the placement's bound says.
pub open spec fn oversized(e: ExpertFacts, bound: u64) -> bool {
    (e.mapped_len matches Some(n) && n > bound) || e.owned_bytes > bound
}

/// The first expert larger than the bound, or the length.
pub open spec fn first_oversized(facts: Seq<ExpertFacts>, bound: u64) -> int
    decreases facts.len(),
{
    if facts.len() == 0 {
        0
    } else {
        let before = first_oversized(facts.drop_last(), bound);
        if before < facts.len() - 1 || oversized(facts.last(), bound) {
            before
        } else {
            facts.len() as int
        }
    }
}

fn find_oversized(facts: &Vec<ExpertFacts>, bound: u64) -> (at: usize)
    ensures
        at == first_oversized(facts@, bound),
        at <= facts.len(),
{
    let mut i: usize = 0;
    while i < facts.len()
        invariant
            i <= facts.len(),
            first_oversized(facts@.take(i as int), bound) == i,
        decreases facts.len() - i,
    {
        proof {
            assert(facts@.take(i + 1).drop_last() =~= facts@.take(i as int));
            assert(facts@.take(i + 1).last() == facts[i as int]);
        }
        let e: ExpertFacts = facts[i];
        let large: bool = match e.mapped_len {
            Some(n) => n > bound,
            None => false,
        };
        if large || e.owned_bytes > bound {
            proof {
                lemma_first_oversized_stays(facts@, i + 1, bound);
            }
            return i;
        }
        i += 1;
    }
    proof {
        assert(facts@.take(facts.len() as int) =~= facts@);
    }
    i
}

proof fn lemma_first_oversized_stays(facts: Seq<ExpertFacts>, n: int, bound: u64)
    requires
        0 <= n <= facts.len(),
        first_oversized(facts.take(n), bound) < n,
    ensures
        first_oversized(facts, bound) == first_oversized(facts.take(n), bound),
    decreases facts.len() - n,
{
    if n == facts.len() {
        assert(facts.take(n) =~= facts);
    } else {
        assert(facts.take(n + 1).drop_last() =~= facts.take(n));
        lemma_first_oversized_stays(facts, n + 1, bound);
    }
}

/// A bank under construction, layer by layer.
pub struct BankBuilder {
    pub index: u32,
    pub count: u32,
    pub flags: BankFlags,
    /// The placement's bound on an expert's bytes, where there is a placement.
    pub expert_bytes: Option<u64>,
    pub layers: Vec<Vec<usize>>,
    pub moe: Vec<bool>,
}

/// The fault of one opened layer.
pub open spec fn opened_fault(b: BankBuilder, layer: usize, facts: Seq<ExpertFacts>) -> Option<
    BankError,
> {
    if b.expert_bytes matches Some(bound) && first_oversized(facts, bound) < facts.len() {
        Some(
            BankError::FileTooLarge {
                layer,
                id: facts[first_oversized(facts, b.expert_bytes->0)].id,
            },
        )
    } else if b.flags.cpu_f16_reference && exists|i: int|
        0 <= i < facts.len() && (#[trigger] facts[i]).mapped_len is None {
        Some(BankError::ReferenceNeedsMapping)
    } else {
        None
    }
}

/// `post` is `pre` with one more layer, which holds these ids.
pub open spec fn layer_added(
    pre: BankBuilder,
    post: BankBuilder,
    routes: bool,
    ids: Seq<usize>,
) -> bool {
    &&& post.same_worker(pre)
    &&& post.moe@ == pre.moe@.push(routes)
    &&& post.layers.len() == pre.layers.len() + 1
    &&& post.layers@.take(pre.layers.len() as int) =~= pre.layers@
    &&& post.layers@.last()@ =~= ids
}

/// `bank` is the bank of a builder's layers.
pub open spec fn finished(b: BankBuilder, m: InklingManifest, bank: ExpertBank) -> bool {
    &&& bank.layers == b.layers
    &&& bank.moe == b.moe
    &&& bank.hidden == m.hidden_size
    &&& bank.inter == m.moe_intermediate
    &&& bank.n_routed == m.num_experts
    &&& bank.n_shared == m.n_shared_experts
    &&& bank.index == b.index
    &&& bank.count == b.count
    &&& bank.fused == b.flags.fused
    &&& bank.cpu_f16_reference == b.flags.cpu_f16_reference
    &&& !bank.require_gpu
    &&& bank.cpu_calls == 0
    &&& bank.wire_f16_replies == 0
    &&& bank.wire_f32_replies == 0
    &&& bank.wire_tensor_bytes == 0
    &&& bank.wire_f32_equivalent_bytes == 0
}

impl BankBuilder {
    pub open spec fn wf(self) -> bool {
        &&& self.layers.len() == self.moe.len()
        &&& forall|l: int| 0 <= l < self.layers.len() ==> ascending((#[trigger] self.layers[l])@)
    }

    pub open spec fn same_worker(self, other: BankBuilder) -> bool {
        &&& self.index == other.index
        &&& self.count == other.count
        &&& self.flags == other.flags
        &&& self.expert_bytes == other.expert_bytes
    }

    pub fn new(index: u32, count: u32, flags: BankFlags, expert_bytes: Option<u64>) -> (b: Self)
        ensures
            b.wf(),
            b.index == index,
            b.count == count,
            b.flags == flags,
            b.expert_bytes == expert_bytes,
            b.layers.len() == 0,
    {
        BankBuilder {
            index,
            count,
            flags,
            expert_bytes,
            layers: Vec::new(),
            moe: Vec::new(),
        }
    }

    /// Adds a dense layer, which holds nothing.
    pub fn add_dense(&mut self)
        requires
            old(self).wf(),
        ensures
            final(self).wf(),
            layer_added(*old(self), *final(self), false, Seq::empty()),
    {
        self.layers.push(Vec::new());
        self.moe.push(false);
    }

    /// Adds a layer of opened experts, given by ascending id.
    pub fn add_experts(&mut self, facts: &Vec<ExpertFacts>) -> (r: Result<(), BankError>)
        requires
            old(self).wf(),
            forall|i: int, j: int| 0 <= i < j < facts.len() ==> facts[i].id < facts[j].id,
        ensures
            final(self).wf(),
            r == (match opened_fault(*old(self), old(self).layers.len(), facts@) {
                Some(e) => Err::<(), BankError>(e),
                None => Ok(()),
            }),
            r is Err ==> *final(self) == *old(self),
            r is Ok ==> layer_added(
                *old(self),
                *final(self),
                true,
                facts@.map_values(|e: ExpertFacts| e.id),
            ),
    {
        let layer: usize = self.layers.len();
        if let Some(bound) = self.expert_bytes {
            let at: usize = find_oversized(facts, bound);
            if at < facts.len() {
                return Err(BankError::FileTooLarge { layer, id: facts[at].id });
            }
        }
        let mut ids: Vec<usize> = Vec::new();
        let mut i: usize = 0;
        while i < facts.len()
            invariant
                i <= facts.len(),
                self.wf(),
                *self == *old(self),
                layer == self.layers.len(),
                self.expert_bytes matches Some(bound) ==> first_oversized(facts@, bound)
                    >= facts.len(),
                ids@ == facts@.take(i as int).map_values(|e: ExpertFacts| e.id),
                self.flags.cpu_f16_reference ==> forall|x: int|
                    0 <= x < i ==> (#[trigger] facts[x]).mapped_len is Some,
            decreases facts.len() - i,
        {
            let e: ExpertFacts = facts[i];
            if self.flags.cpu_f16_reference && e.mapped_len.is_none() {
                assert(facts@[i as int].mapped_len is None);
                return Err(BankError::ReferenceNeedsMapping);
            }
            ids.push(e.id);
            proof {
                assert(facts@.take(i + 1).map_values(|e: ExpertFacts| e.id) =~= facts@.take(
                    i as int,
                ).map_values(|e: ExpertFacts| e.id).push(e.id));
            }
            i += 1;
        }
        proof {
            assert(facts@.take(facts.len() as int) =~= facts@);
            assert forall|i: int, j: int| 0 <= i < j < ids.len() implies ids[i] < ids[j] by {
                assert(ids[i] == facts[i].id && ids[j] == facts[j].id);
            }
        }
        self.layers.push(ids);
        self.moe.push(true);
        Ok(())
    }

    /// Completes the bank. Fused shards hold no weights of their own, and their
    /// cache budget must be a positive number of mebibytes.
    pub fn finish(self, m: &InklingManifest, fused_cache_mb: Option<&str>) -> (r: Result<
        (ExpertBank, Option<u64>),
        BankError,
    >)
        requires
            self.wf(),
            m.hidden_size <= u32::MAX,
        ensures
            match r {
                Err(e) => {
                    ||| self.flags.fused && self.flags.own && e == BankError::FusedOwnsNothing
                    ||| self.flags.fused && !self.flags.own && fused_budget(
                        budget_text(fused_cache_mb),
                    ) is None && e == BankError::FusedBudget
                },
                Ok((bank, budget)) => {
                    &&& self.flags.fused ==> !self.flags.own && budget is Some && fused_budget(
                        budget_text(fused_cache_mb),
                    ) == Some(budget->0 as nat)
                    &&& !self.flags.fused ==> budget is None
                    &&& bank.wf()
                    &&& finished(self, *m, bank)
                },
            },
    {
        let mut budget: Option<u64> = None;
        if self.flags.fused {
            if self.flags.own {
                return Err(BankError::FusedOwnsNothing);
            }
            let text: Vec<char> = match fused_cache_mb {
                Some(s) => chars_of(s),
                None => chars_of("4096"),
            };
            match parse_within(text.as_slice(), u64::MAX) {
                Some(n) => {
                    if n == 0 || n > u64::MAX / 1_048_576 {
                        return Err(BankError::FusedBudget);
                    }
                    budget = Some(n * 1_048_576);
                },
                None => return Err(BankError::FusedBudget),
            }
        }
        Ok(
            (
                ExpertBank {
                    layers: self.layers,
                    moe: self.moe,
                    hidden: m.hidden_size,
                    inter: m.moe_intermediate,
                    n_routed: m.num_experts,
                    n_shared: m.n_shared_experts,
                    index: self.index,
                    count: self.count,
                    fused: self.flags.fused,
                    require_gpu: false,
                    cpu_calls: 0,
                    cpu_f16_reference: self.flags.cpu_f16_reference,
                    wire_f16_replies: 0,
                    wire_f32_replies: 0,
                    wire_tensor_bytes: 0,
                    wire_f32_equivalent_bytes: 0,
                },
                budget,
            ),
        )
    }
}

pub open spec fn budget_text(given: Option<&str>) -> Seq<char> {
    match given {
        Some(s) => s@,
        None => "4096"@,
    }
}

/// The bytes of a budget given in mebibytes: positive and within 64 bits.
pub open spec fn fused_budget(s: Seq<char>) -> Option<nat> {
    match text::decimal_within(s, u64::MAX as nat) {
        Some(n) => if n > 0 && n * 1_048_576 <= u64::MAX {
            Some(n * 1_048_576)
        } else {
            None
        },
        None => None,
    }
}

/// The ids of a model's experts that are homed on worker `index` of `count`, ascending.
pub open spec fn shard_ids(m: InklingManifest, index: u32, count: u32) -> Seq<int> {
    loader::owned_below(ExpertSet::Shard { index, count }, m.num_experts + m.n_shared_experts)
}

/// `files` lists the files of a worker's experts, with their ids.
pub open spec fn lists_shard(
    files: Seq<(usize, String)>,
    m: InklingManifest,
    index: u32,
    count: u32,
) -> bool {
    let ids = shard_ids(m, index, count);
    &&& files.len() == ids.len()
    &&& forall|i: int|
        #![trigger files[i]]
        0 <= i < files.len() ==> files[i].0 == ids[i] && files[i].1@ == loader::expert_file(
            ids[i] as nat,
            m.num_experts as nat,
        )
}

/// The experts of layer `li` that a worker without a placement opens: those that
/// are homed on it.
pub fn shard_files(m: &InklingManifest, li: usize, index: u32, count: u32) -> (r: Result<
    Vec<(usize, String)>,
    loader::ExpertsError,
>)
    requires
        m.num_experts + m.n_shared_experts <= usize::MAX,
    ensures
        match r {
            Err(e) => loader::experts_fault(*m, li, ExpertSet::Shard { index, count }) == Some(e),
            Ok(files) => loader::experts_fault(*m, li, ExpertSet::Shard { index, count }) is None
                && lists_shard(files@, *m, index, count),
        },
{
    loader::moe_expert_files(m, li, ExpertSet::Shard { index, count })
}

/// The experts of a listing were opened one for one.
pub open spec fn opened_as_listed(facts: Seq<ExpertFacts>, files: Seq<(usize, String)>) -> bool {
    &&& facts.len() == files.len()
    &&& forall|i: int| 0 <= i < facts.len() ==> (#[trigger] facts[i]).id == files[i].0
}

/// Layer `l` was added to a bank of worker `index` of `count`: a dense layer holds nothing,
/// any other the experts that the worker's listing names.
pub open spec fn shard_layer_added(
    m: InklingManifest,
    pre: BankBuilder,
    post: BankBuilder,
    l: int,
    files: Seq<(usize, String)>,
    facts: Seq<ExpertFacts>,
    index: u32,
    count: u32,
) -> bool {
    if m.dense(l as usize) {
        layer_added(pre, post, false, Seq::empty())
    } else {
        &&& lists_shard(files, m, index, count)
        &&& opened_as_listed(facts, files)
        &&& layer_added(pre, post, true, facts.map_values(|e: ExpertFacts| e.id))
    }
}

/// Layer `l` of a bank is what worker `index` of `count` holds of it.
pub open spec fn holds_shard(
    bank: ExpertBank,
    m: InklingManifest,
    l: int,
    index: u32,
    count: u32,
) -> bool {
    let held = bank.layers[l]@;
    if m.dense(l as usize) {
        !bank.moe[l] && held =~= Seq::<usize>::empty()
    } else {
        bank.moe[l] && held.map_values(|id: usize| id as int) =~= shard_ids(m, index, count)
    }
}

/// A bank that was opened layer by layer from a worker's listings holds, of every layer that
/// routes, exactly the ids that are homed on the worker, ascending; of a dense layer nothing.
/// `steps` are the builder before the first layer and after each one.
pub proof fn law_opened_bank_holds_its_shard(
    m: InklingManifest,
    steps: Seq<BankBuilder>,
    files: Seq<Seq<(usize, String)>>,
    facts: Seq<Seq<ExpertFacts>>,
    bank: ExpertBank,
    index: u32,
    count: u32,
    l: int,
)
    requires
        index < count,
        steps.len() == m.num_layers + 1,
        files.len() == m.num_layers,
        facts.len() == m.num_layers,
        steps[0].wf(),
        steps[0].layers.len() == 0,
        forall|i: int|
            0 <= i < m.num_layers ==> shard_layer_added(
                m,
                #[trigger] steps[i],
                steps[i + 1],
                i,
                files[i],
                facts[i],
                index,
                count,
            ),
        finished(steps[m.num_layers as int], m, bank),
        0 <= l < m.num_layers,
    ensures
        bank.layers.len() == m.num_layers,
        bank.moe.len() == m.num_layers,
        holds_shard(bank, m, l, index, count),
        ascending(bank.layers[l]@),
        !m.dense(l as usize) ==> forall|id: usize|
            #[trigger] bank.layers[l]@.contains(id) <==> id < m.num_experts + m.n_shared_experts
                && id % count as usize == index,
{
    let n = m.num_layers as int;
    lemma_layer_stays(m, steps, files, facts, index, count, l, n);
    assert(shard_layer_added(m, steps[l], steps[l + 1], l, files[l], facts[l], index, count));
    let held = bank.layers[l]@;
    let set = ExpertSet::Shard { index, count };
    let top = m.num_experts + m.n_shared_experts;
    if !m.dense(l as usize) {
        assert(held.map_values(|id: usize| id as int) =~= shard_ids(m, index, count)) by {
            assert forall|i: int| 0 <= i < held.len() implies held[i] as int == shard_ids(
                m,
                index,
                count,
            )[i] by {
                assert(held[i] == facts[l][i].id);
                assert(facts[l][i].id == files[l][i].0);
            }
        }
        loader::lemma_owned_below(set, top);
        let ids = shard_ids(m, index, count);
        assert forall|i: int, j: int| 0 <= i < j < held.len() implies held[i] < held[j] by {
            assert(held.map_values(|id: usize| id as int)[i] == ids[i]);
            assert(held.map_values(|id: usize| id as int)[j] == ids[j]);
        }
        assert forall|id: usize|
            #[trigger] held.contains(id) <==> id < top && id % count as usize == index by {
            if held.contains(id) {
                let i = choose|i: int| 0 <= i < held.len() && held[i] == id;
                assert(held.map_values(|id: usize| id as int)[i] == ids[i]);
                assert(ids.contains(id as int));
            }
            if id < top && id % count as usize == index {
                assert(set.contains(id as int));
                assert(ids.contains(id as int));
                let i = choose|i: int| 0 <= i < ids.len() && ids[i] == id as int;
                assert(held.map_values(|id: usize| id as int)[i] == ids[i]);
                assert(held[i] == id);
            }
        }
    }
}

proof fn lemma_layer_stays(
    m: InklingManifest,
    steps: Seq<BankBuilder>,
    files: Seq<Seq<(usize, String)>>,
    facts: Seq<Seq<ExpertFacts>>,
    index: u32,
    count: u32,
    l: int,
    n: int,
)
    requires
        steps.len() == m.num_layers + 1,
        steps[0].wf(),
        steps[0].layers.len() == 0,
        forall|i: int|
            0 <= i < m.num_layers ==> shard_layer_added(
                m,
                #[trigger] steps[i],
                steps[i + 1],
                i,
                files[i],
                facts[i],
                index,
                count,
            ),
        0 <= n <= m.num_layers,
    ensures
        steps[n].layers.len() == n,
        steps[n].moe.len() == n,
        0 <= l < n ==> steps[n].layers[l] == steps[l + 1].layers@.last() && steps[n].moe[l]
            == steps[l + 1].moe@.last(),
    decreases n,
{
    if n > 0 {
        lemma_layer_stays(m, steps, files, facts, index, count, l, n - 1);
        let pre = steps[n - 1];
        let post = steps[n];
        assert(shard_layer_added(
            m,
            steps[n - 1],
            steps[(n - 1) + 1],
            n - 1,
            files[n - 1],
            facts[n - 1],
            index,
            count,
        ));
        if 0 <= l < n - 1 {
            assert(post.layers@.take(pre.layers.len() as int)[l] == pre.layers@[l]);
            assert(post.moe@[l] == pre.moe@[l]);
        }
    }
}

/// The banks of all workers split the experts of a layer that routes: every expert is held by
/// exactly one of them.
pub proof fn law_banks_split_every_layer(
    m: InklingManifest,
    banks: Seq<ExpertBank>,
    count: u32,
    l: int,
    id: usize,
)
    requires
        count > 0,
        banks.len() == count,
        forall|i: int|
            0 <= i < banks.len() ==> holds_shard(#[trigger] banks[i], m, l, i as u32, count),
        !m.dense(l as usize),
        id < m.num_experts + m.n_shared_experts,
    ensures
        exists|i: int| 0 <= i < banks.len() && (#[trigger] banks[i]).layers[l]@.contains(id),
        forall|i: int, j: int|
            0 <= i < banks.len() && 0 <= j < banks.len() && (
            #[trigger] banks[i]).layers[l]@.contains(id) && (
            #[trigger] banks[j]).layers[l]@.contains(id) ==> i == j,
{
    let top = m.num_experts + m.n_shared_experts;
    assert forall|i: int| 0 <= i < banks.len() implies ((
    #[trigger] banks[i]).layers[l]@.contains(id) <==> id as int % count as int == i) by {
        let held = banks[i].layers[l]@;
        let ids = shard_ids(m, i as u32, count);
        let set = ExpertSet::Shard { index: i as u32, count };
        assert(holds_shard(banks[i], m, l, i as u32, count));
        loader::lemma_owned_below(set, top);
        let view = held.map_values(|id: usize| id as int);
        assert(view == ids);
        if held.contains(id) {
            let x = choose|x: int| 0 <= x < held.len() && held[x] == id;
            assert(view[x] == id as int);
            assert(ids.contains(id as int));
        }
        if id as int % count as int == i {
            assert(set.contains(id as int));
            assert(ids.contains(id as int));
            let x = choose|x: int| 0 <= x < ids.len() && ids[x] == id as int;
            assert(view[x] == id as int);
            assert(held[x] == id);
        }
    }
    let home = id as int % count as int;
    assert(banks[home].layers[l]@.contains(id));
}

/// The slots of an expert are all those that name it, in ascending order.
pub proof fn law_slots_of_an_expert(ids: Seq<i32>, id: int)
    ensures
        forall|s: int|
            #[trigger] slots_of(ids, id).contains(s) <==> 0 <= s < ids.len() && ids[s] == id,
        forall|i: int, j: int|
            0 <= i < j < slots_of(ids, id).len() ==> (#[trigger] slots_of(ids, id)[i]) < (
            #[trigger] slots_of(ids, id)[j]),
        forall|i: int|
            0 <= i < slots_of(ids, id).len() ==> 0 <= (#[trigger] slots_of(ids, id)[i]) < ids.len(),
    decreases ids.len(),
{
    if ids.len() > 0 {
        let d = ids.drop_last();
        let rest = slots_of(d, id);
        let all = slots_of(ids, id);
        law_slots_of_an_expert(d, id);
        let last = ids.len() - 1;
        assert forall|s: int| #[trigger] all.contains(s) <==> 0 <= s < ids.len() && ids[s] == id by {
            if all.contains(s) {
                let i = choose|i: int| 0 <= i < all.len() && all[i] == s;
                if i < rest.len() {
                    assert(rest[i] == s);
                    assert(rest.contains(s));
                }
            }
            if 0 <= s < last && ids[s] == id {
                assert(rest.contains(s));
                let i = choose|i: int| 0 <= i < rest.len() && rest[i] == s;
                assert(all[i] == s);
            }
            if s == last && ids[s] == id {
                assert(all[rest.len() as int] == s);
            }
        }
    }
}

/// The first bad slot names neither the padding nor an expert of the worker, and every
/// slot before it does.
pub proof fn law_first_bad_slot(ids: Seq<i32>, owned: Seq<usize>, pad: i32)
    ensures
        ({
            let at = first_bad_slot(ids, owned, pad);
            &&& 0 <= at <= ids.len()
            &&& at < ids.len() ==> ids[at] != pad && (ids[at] < 0 || !owned.contains(
                ids[at] as usize,
            ))
            &&& forall|s: int|
                0 <= s < at ==> (#[trigger] ids[s]) == pad || (ids[s] >= 0 && owned.contains(
                    ids[s] as usize,
                ))
        }),
    decreases ids.len(),
{
    if ids.len() > 0 {
        let d = ids.drop_last();
        law_first_bad_slot(d, owned, pad);
        let at = first_bad_slot(ids, owned, pad);
        let last = ids.last();
        assert(ids[ids.len() - 1] == last);
        assert(loader::listed(owned, last as usize) <==> owned.contains(last as usize));
        assert forall|s: int| 0 <= s < at implies (#[trigger] ids[s]) == pad || (ids[s] >= 0
            && owned.contains(ids[s] as usize)) by {
            if s < d.len() {
                assert(d[s] == ids[s]);
            }
        }
        if at < d.len() {
            assert(d[at] == ids[at]);
        }
    }
}

/// A device is a graphics processor where its name is `GPU`, or `GPU` and a point begin
/// it.
pub proof fn law_names_of_graphics_processors(device: Seq<char>)
    ensures
        names_gpu(device) <==> device.len() >= 3 && device[0] == 'G' && device[1] == 'P'
            && device[2] == 'U' && (device.len() == 3 || device[3] == '.'),
{
    reveal_strlit("GPU");
    reveal_strlit("GPU.");
    if device.len() >= 4 {
        let t = device.take(4);
        assert(t[0] == device[0] && t[1] == device[1] && t[2] == device[2] && t[3] == device[3]);
        if device[0] == 'G' && device[1] == 'P' && device[2] == 'U' && device[3] == '.' {
            assert(t =~= "GPU."@);
        }
    }
    if device.len() == 3 && device[0] == 'G' && device[1] == 'P' && device[2] == 'U' {
        assert(device =~= "GPU"@);
    }
}

/// The first flag that is not set: every one before it is.
pub proof fn law_first_unset_flag(flags: Seq<bool>)
    ensures
        0 <= first_false(flags) <= flags.len(),
        first_false(flags) < flags.len() ==> !flags[first_false(flags)],
        forall|i: int| 0 <= i < first_false(flags) ==> #[trigger] flags[i],
    decreases flags.len(),
{
    if flags.len() > 0 {
        let d = flags.drop_last();
        law_first_unset_flag(d);
        assert forall|i: int| 0 <= i < first_false(flags) implies #[trigger] flags[i] by {
            if i < d.len() {
                assert(d[i] == flags[i]);
            }
        }
        if first_false(flags) < d.len() {
            assert(d[first_false(flags)] == flags[first_false(flags)]);
        }
    }
}

/// The expert that is told as missing is the first one, layer by layer, and none is told
/// exactly where all are there.
pub proof fn law_first_missing_expert(
    layers: Seq<Vec<usize>>,
    compiled: Seq<Vec<bool>>,
    n: int,
)
    requires
        0 <= n <= compiled.len(),
    ensures
        match first_missing(layers, compiled, n) {
            Some((l, i)) => {
                &&& 0 <= l < n && 0 <= i < compiled[l].len() && !compiled[l][i]
                &&& forall|x: int| 0 <= x < i ==> #[trigger] compiled[l][x]
                &&& forall|k: int, x: int|
                    0 <= k < l && 0 <= x < compiled[k].len() ==> #[trigger] compiled[k][x]
            },
            None => forall|k: int, x: int|
                0 <= k < n && 0 <= x < compiled[k].len() ==> #[trigger] compiled[k][x],
        },
    decreases n,
{
    if n > 0 {
        law_first_missing_expert(layers, compiled, n - 1);
        law_first_unset_flag(compiled[n - 1]@);
        if first_missing(layers, compiled, n) is None {
            assert forall|k: int, x: int| 0 <= k < n && 0 <= x < compiled[k].len() implies (
            #[trigger] compiled[k][x]) by {
                if k == n - 1 {
                    assert(compiled[n - 1]@[x]);
                }
            }
        } else if first_missing(layers, compiled, n - 1) is None {
            let i = first_false(compiled[n - 1]@);
            assert forall|x: int| 0 <= x < i implies #[trigger] compiled[n - 1][x] by {
                assert(compiled[n - 1]@[x]);
            }
        }
    }
}

/// The first expert over the bound: every one before it is within.
pub proof fn law_first_oversized_expert(facts: Seq<ExpertFacts>, bound: u64)
    ensures
        ({
            let at = first_oversized(facts, bound);
            &&& 0 <= at <= facts.len()
            &&& at < facts.len() ==> (facts[at].mapped_len matches Some(n) && n > bound)
                || facts[at].owned_bytes > bound
            &&& forall|i: int|
                0 <= i < at ==> (#[trigger] facts[i]).owned_bytes <= bound && (
                facts[i].mapped_len matches Some(n) ==> n <= bound)
        }),
    decreases facts.len(),
{
    if facts.len() > 0 {
        let d = facts.drop_last();
        law_first_oversized_expert(d, bound);
        let at = first_oversized(facts, bound);
        assert forall|i: int| 0 <= i < at implies (#[trigger] facts[i]).owned_bytes <= bound && (
        facts[i].mapped_len matches Some(n) ==> n <= bound) by {
            if i < d.len() {
                assert(d[i] == facts[i]);
            }
        }
        if at < d.len() {
            assert(d[at] == facts[at]);
        }
    }
}

/// The experts of a bank: each layer adds its own.
pub proof fn law_experts_of_a_bank_add_up(layers: Seq<Vec<usize>>, n: int)
    requires
        0 <= n < layers.len(),
    ensures
        experts_below(layers, 0) == 0,
        experts_below(layers, n + 1) - experts_below(layers, n) == layers[n].len(),
{
}

/// A budget of fused kernels is in mebibytes: any number of them but zero whose bytes
/// can be counted.
pub proof fn law_fused_budget_in_mebibytes(s: Seq<char>)
    ensures
        fused_budget(s) matches Some(b) ==> b % 1_048_576 == 0 && b > 0 && text::decimal(s) == Some(
            (b / 1_048_576) as nat,
        ),
        text::decimal(s) matches Some(n) && 0 < n <= 17_592_186_044_415 ==> fused_budget(s) is Some,
        text::decimal(s) is None ==> fused_budget(s) is None,
{
}

/// A request is served exactly where it names a layer that routes, a batch within the
/// limit, a slot at least, tensors of the shapes that it states, and experts of the
/// worker or the padding.
pub proof fn law_requests_that_are_served(
    bank: ExpertBank,
    b: ExpertDispatchBody,
    max_batch: usize,
    pad: i32,
)
    ensures
        bank.serve_fault(b, max_batch, pad) is None <==> {
            &&& b.layer < bank.layers.len()
            &&& bank.routes(b.layer as int)
            &&& 1 <= b.rows <= max_batch
            &&& b.k >= 1
            &&& b.hidden_shape@ == seq![b.rows, bank.hidden as u32, 1u32]
            &&& b.hidden.len() == b.rows * bank.hidden
            &&& b.ids_shape@ == seq![b.rows, b.k, 1u32]
            &&& b.ids.len() == b.rows * b.k
            &&& forall|s: int|
                0 <= s < b.ids.len() ==> (#[trigger] b.ids[s]) == pad || (b.ids[s] >= 0
                    && bank.layers[b.layer as int]@.contains(b.ids[s] as usize))
        },
{
    if b.layer < bank.layers.len() {
        let owned = bank.layers[b.layer as int]@;
        law_first_bad_slot(b.ids@, owned, pad);
        let s = first_bad_slot(b.ids@, owned, pad);
        if s < b.ids.len() {
            assert(!(b.ids[s] == pad || (b.ids[s] >= 0 && owned.contains(b.ids[s] as usize))));
        } else {
            assert forall|x: int| 0 <= x < b.ids.len() implies (#[trigger] b.ids[x]) == pad || (
            b.ids[x] >= 0 && owned.contains(b.ids[x] as usize)) by {
                assert(b.ids@[x] == b.ids[x]);
            }
        }
    }
}

/// A bank that must run on a graphics processor does so where it runs fused kernels, or
/// where a probe found such a device, named it, and has every expert compiled.
pub proof fn law_banks_that_run_on_the_device(bank: ExpertBank, probe: Option<DeviceProbe>)
    requires
        probe matches Some(p) ==> p.compiled.len() == bank.layers.len(),
    ensures
        bank.gpu_fault(probe) is None <==> bank.fused || (probe matches Some(p) && names_gpu(
            p.device@,
        ) && p.named && forall|l: int, i: int|
            0 <= l < p.compiled.len() && 0 <= i < p.compiled[l].len()
                ==> #[trigger] p.compiled[l][i]),
{
    if probe is Some {
        let p = probe->0;
        law_first_missing_expert(bank.layers@, p.compiled@, bank.layers.len() as int);
    }
}

/// A layer more stands behind those that are there, which stay as they are.
pub proof fn law_layers_are_added_behind(
    pre: BankBuilder,
    post: BankBuilder,
    routes: bool,
    ids: Seq<usize>,
    l: int,
)
    requires
        layer_added(pre, post, routes, ids),
        pre.wf(),
        0 <= l < pre.layers.len(),
    ensures
        post.layers.len() == pre.layers.len() + 1,
        post.layers[l] == pre.layers[l],
        post.moe[l] == pre.moe[l],
        post.layers[pre.layers.len() as int]@ =~= ids,
        post.moe[pre.moe.len() as int] == routes,
        post.index == pre.index && post.count == pre.count,
{
    assert(post.layers@.take(pre.layers.len() as int)[l] == pre.layers@[l]);
    assert(post.layers@.last() == post.layers@[pre.layers.len() as int]);
}

/// Without a setting the budget of fused kernels is four gibibytes.
pub proof fn law_budget_without_a_setting(s: &str)
    ensures
        fused_budget(budget_text(None)) == Some(4_294_967_296nat),
        budget_text(Some(s)) == s@,
{
    reveal_strlit("4096");
    let t = "4096"@;
    assert(t =~= seq!['4', '0', '9', '6']);
    text::law_only_digits_are_a_number(t);
    text::law_digits_count_by_ten(seq![], '4');
    text::law_digits_count_by_ten(seq!['4'], '0');
    text::law_digits_count_by_ten(seq!['4', '0'], '9');
    text::law_digits_count_by_ten(seq!['4', '0', '9'], '6');
    assert(Seq::<char>::empty().push('4') =~= seq!['4']);
    assert(seq!['4'].push('0') =~= seq!['4', '0']);
    assert(seq!['4', '0'].push('9') =~= seq!['4', '0', '9']);
    assert(seq!['4', '0', '9'].push('6') =~= t);
    assert(text::decimal(t) == Some(4096nat));
}

/// Opened experts are taken where none is over the bound of its budget and, for a bank
/// that computes in half precision, each is mapped.
pub proof fn law_opened_experts_that_are_taken(
    b: BankBuilder,
    layer: usize,
    facts: Seq<ExpertFacts>,
)
    ensures
        opened_fault(b, layer, facts) is None <==> {
            &&& b.expert_bytes matches Some(bound) ==> forall|i: int|
                0 <= i < facts.len() ==> (#[trigger] facts[i]).owned_bytes <= bound && (
                facts[i].mapped_len matches Some(n) ==> n <= bound)
            &&& b.flags.cpu_f16_reference ==> forall|i: int|
                0 <= i < facts.len() ==> (#[trigger] facts[i]).mapped_len is Some
        },
{
    if b.expert_bytes is Some {
        law_first_oversized_expert(facts, b.expert_bytes->0);
        let at = first_oversized(facts, b.expert_bytes->0);
        if at < facts.len() {
            assert(oversized(facts[at], b.expert_bytes->0));
        }
    }
}

/// A new bank is of its worker and model, holds the layers that were added, and has
/// counted nothing.
pub proof fn law_a_new_bank_has_counted_nothing(b: BankBuilder, m: InklingManifest, bank: ExpertBank)
    requires
        finished(b, m, bank),
    ensures
        bank.layers == b.layers && bank.moe == b.moe && bank.index == b.index && bank.count
            == b.count,
        bank.hidden == m.hidden_size && bank.n_routed == m.num_experts && bank.n_shared
            == m.n_shared_experts && bank.inter == m.moe_intermediate,
        bank.cpu_calls == 0 && bank.wire_f16_replies == 0 && bank.wire_f32_replies == 0
            && bank.wire_tensor_bytes == 0 && bank.wire_f32_equivalent_bytes == 0,
        bank.fused == b.flags.fused && bank.cpu_f16_reference == b.flags.cpu_f16_reference,
        !bank.require_gpu,
{
}

/// The files of a shard are those of its ids, in ascending order, and what was opened is
/// what was listed.
pub proof fn law_files_of_a_shard(
    files: Seq<(usize, String)>,
    facts: Seq<ExpertFacts>,
    m: InklingManifest,
    index: u32,
    count: u32,
    i: int,
)
    requires
        lists_shard(files, m, index, count),
        opened_as_listed(facts, files),
        0 <= i < files.len(),
        index < count,
    ensures
        facts.len() == files.len(),
        facts[i].id == files[i].0,
        files[i].0 % count as usize == index as usize,
        files[i].0 < m.num_experts + m.n_shared_experts,
        i + 1 < files.len() ==> files[i].0 < files[i + 1].0,
        files[i].1@ == loader::expert_file(files[i].0 as nat, m.num_experts as nat),
{
    let set = ExpertSet::Shard { index, count };
    let ids = shard_ids(m, index, count);
    loader::law_owned_ids_ascend(set, m.num_experts + m.n_shared_experts);
    assert(ids.contains(ids[i]));
    assert(set.contains(ids[i]));
    if i + 1 < files.len() {
        assert(ids[i] < ids[i + 1]);
        assert(files[i + 1].0 == ids[i + 1]);
    }
}

/// Every group gathers all slots of one expert, at least one, in ascending order; each
/// slot that names an expert is in the group of that expert, and padding is in none.
pub proof fn law_groups_gather_their_slots(
    groups: Seq<ExpertSlots>,
    ids: Seq<i32>,
    pad: i32,
    g: int,
    s: int,
)
    requires
        grouped(groups, ids, pad),
        0 <= g < groups.len(),
        0 <= s < ids.len(),
        ids.len() <= usize::MAX,
    ensures
        groups[g].slots.len() > 0,
        groups[g].id != pad,
        groups[g].slots@.contains(s as usize) <==> ids[s] == groups[g].id,
        forall|i: int, j: int|
            0 <= i < j < groups[g].slots.len() ==> groups[g].slots@[i] < groups[g].slots@[j],
        ids[s] != pad ==> exists|x: int|
            0 <= x < groups.len() && (#[trigger] groups[x]).id == ids[s] && groups[x].slots@.contains(
                s as usize,
            ),
{
    lemma_group_slots(groups[g], ids, s);
    if ids[s] != pad {
        let x = choose|x: int| 0 <= x < groups.len() && (#[trigger] groups[x]).id == ids[s];
        lemma_group_slots(groups[x], ids, s);
    }
}

proof fn lemma_group_slots(g: ExpertSlots, ids: Seq<i32>, s: int)
    requires
        group_is(g, ids),
        0 <= s < ids.len(),
        ids.len() <= usize::MAX,
    ensures
        g.slots@.contains(s as usize) <==> ids[s] == g.id,
        forall|i: int, j: int| 0 <= i < j < g.slots.len() ==> g.slots@[i] < g.slots@[j],
{
    let all = slots_of(ids, g.id as int);
    let as_ints = g.slots@.map_values(|x: usize| x as int);
    law_slots_of_an_expert(ids, g.id as int);
    assert forall|i: int| 0 <= i < g.slots.len() implies g.slots@[i] as int == all[i] by {
        assert(as_ints[i] == all[i]);
    }
    assert forall|i: int, j: int| 0 <= i < j < g.slots.len() implies g.slots@[i]
        < g.slots@[j] by {
        assert(all[i] < all[j]);
    }
    if g.slots@.contains(s as usize) {
        let i = choose|i: int| 0 <= i < g.slots.len() && g.slots@[i] == s as usize;
        assert(all[i] == s);
        assert(all.contains(s));
    }
    if ids[s] == g.id {
        assert(all.contains(s));
        let i = choose|i: int| 0 <= i < all.len() && all[i] == s;
        assert(g.slots@[i] as int == s);
    }
}

/// A slot of padding is answered with zeros.
pub proof fn law_padding_is_answered_with_zeros(
    out: Seq<u32>,
    groups: Seq<ExpertSlots>,
    ys: Seq<Vec<Vec<u32>>>,
    ids: Seq<i32>,
    pad: i32,
    h: int,
    s: int,
    x: int,
)
    requires
        reply_is(out, groups, ys, ids, pad, h),
        0 <= s < ids.len(),
        ids[s] == pad,
        0 <= x < h,
    ensures
        out.len() == ids.len() * h,
        out[s * h + x] == 0,
{
    assert((s + 1) * h <= ids.len() * h) by (nonlinear_arith)
        requires
            s + 1 <= ids.len(),
            0 < h,
    ;
    conv::law_rows_of_a_matrix(out, s, h, x);
    assert(conv::matrix_row(out, s, h)[x] == 0);
}

/// A bank keeps its shard and its layout whatever it serves.
pub proof fn law_banks_that_hold_the_same_shard(a: ExpertBank, b: ExpertBank)
    ensures
        a.same_shard(b) <==> a.layers == b.layers && a.moe == b.moe && a.hidden == b.hidden
            && a.inter == b.inter && a.n_routed == b.n_routed && a.n_shared == b.n_shared && a.index
            == b.index && a.count == b.count && a.fused == b.fused && a.cpu_f16_reference
            == b.cpu_f16_reference,
        a.same_wire(b) <==> a.wire_f16_replies == b.wire_f16_replies && a.wire_f32_replies
            == b.wire_f32_replies && a.wire_tensor_bytes == b.wire_tensor_bytes
            && a.wire_f32_equivalent_bytes == b.wire_f32_equivalent_bytes,
{
}

} // verus!
