//! Expert-parallel dispatch, driver side.
//!
//! One driver routes every row of a layer and `W` workers hold the experts. Per
//! frame each involved worker receives only the rows that route to it, each row
//! with the ids it must serve in gate order, padded to the widest row of that
//! worker. Every expert's raw output comes back, and the driver sums the row in
//! gate order, so the sum does not depend on which worker served what.
//!
//! Routing weights and activations are carried as the bit patterns of single
//! precision numbers; the arithmetic on them is the caller's.
use vstd::prelude::*;

verus! {

/// One routed entry of a row: the expert id and the bits of its gate weight.
pub type Routed = (usize, u32);

/// Bits of a single precision number that is neither infinite nor a NaN.
pub open spec fn finite_bits(bits: u32) -> bool {
    bits % 0x8000_0000 < 0x7f80_0000
}

/// Whether the number with these bits is finite.
pub fn is_finite_bits(bits: u32) -> (r: bool)
    ensures
        r == finite_bits(bits),
        r == (bits < 0x7f80_0000 || 0x8000_0000 <= bits < 0xff80_0000),
{
    bits % 0x8000_0000 < 0x7f80_0000
}

/// The worker that serves `expert` in every layer.
pub fn expert_home(expert: usize, n_workers: usize) -> (r: usize)
    requires
        n_workers > 0,
    ensures
        r == expert % n_workers,
        r < n_workers,
{
    expert % n_workers
}

/// The default placement of `n_ids` experts over `n_workers` workers.
pub fn default_homes(n_ids: usize, n_workers: usize) -> (homes: Vec<usize>)
    requires
        n_workers > 0,
    ensures
        homes.len() == n_ids,
        forall|id: int| 0 <= id < n_ids ==> #[trigger] homes[id] == id % n_workers as int,
{
    let mut homes: Vec<usize> = Vec::new();
    let mut id: usize = 0;
    while id < n_ids
        invariant
            id <= n_ids,
            n_workers > 0,
            homes.len() == id,
            forall|i: int| 0 <= i < id ==> #[trigger] homes[i] == i % n_workers as int,
        decreases n_ids - id,
    {
        homes.push(expert_home(id, n_workers));
        id += 1;
    }
    homes
}

/// Every worker is home to some expert as soon as there are as many experts as
/// workers.
pub proof fn law_default_homes_cover_every_worker(n_ids: int, n_workers: int, worker: int)
    requires
        0 < n_workers <= n_ids,
        0 <= worker < n_workers,
    ensures
        exists|id: int| 0 <= id < n_ids && #[trigger] (id % n_workers) == worker,
{
    vstd::arithmetic::div_mod::lemma_small_mod(worker as nat, n_workers as nat);
    assert(worker % n_workers == worker);
}

// ---------------------------------------------------------------- frame plans

/// The routed lists of a frame, row by row.
pub open spec fn lists(per_row: Seq<Vec<Routed>>) -> Seq<Seq<Routed>> {
    Seq::new(per_row.len(), |r: int| per_row[r]@)
}

/// The entries of one row that live on worker `w`, in gate order.
pub open spec fn homed(list: Seq<Routed>, homes: Seq<usize>, w: int) -> Seq<Routed>
    decreases list.len(),
{
    if list.len() == 0 {
        Seq::empty()
    } else {
        let rest = homed(list.drop_last(), homes, w);
        if homes[list.last().0 as int] == w {
            rest.push(list.last())
        } else {
            rest
        }
    }
}

/// The rows of a frame that worker `w` serves, ascending.
pub open spec fn active(rows: Seq<Seq<Routed>>, homes: Seq<usize>, w: int) -> Seq<int>
    decreases rows.len(),
{
    if rows.len() == 0 {
        Seq::empty()
    } else {
        let rest = active(rows.drop_last(), homes, w);
        if homed(rows.last(), homes, w).len() > 0 {
            rest.push(rows.len() - 1)
        } else {
            rest
        }
    }
}

/// The most entries that one row of the frame places on worker `w`.
pub open spec fn width(rows: Seq<Seq<Routed>>, homes: Seq<usize>, w: int) -> nat
    decreases rows.len(),
{
    if rows.len() == 0 {
        0
    } else {
        let rest = width(rows.drop_last(), homes, w);
        let here = homed(rows.last(), homes, w).len();
        if here > rest {
            here
        } else {
            rest
        }
    }
}

/// Element `j` of row `c` of a matrix stored row by row, `k` to a row.
pub open spec fn cell<T>(s: Seq<T>, c: int, k: int, j: int) -> T {
    s[c * k + j]
}

/// What slot `j` of a compact row holds: the `j`-th entry that the row places on
/// the worker, or a pad with weight zero.
pub open spec fn slot_entry(served: Seq<Routed>, j: int, pad: i32) -> (i32, u32) {
    if 0 <= j < served.len() {
        (served[j].0 as i32, served[j].1)
    } else {
        (pad, 0u32)
    }
}

/// One worker's share of a frame: the compact rows it serves and, per row, the
/// ids and weights of its `k` slots.
pub struct WorkerPlan {
    pub worker: usize,
    pub k: usize,
    pub rows: usize,
    pub ids: Vec<i32>,
    pub weights: Vec<u32>,
    pub hidden_rows: Vec<u32>,
}

/// `plan` is the share of worker `w`: exactly its active rows, in order, with
/// their hidden states, and every slot as [`slot_entry`] says.
pub open spec fn plan_for(
    plan: WorkerPlan,
    hidden_rows: Seq<u32>,
    rows: Seq<Seq<Routed>>,
    homes: Seq<usize>,
    w: int,
    h: int,
    pad: i32,
) -> bool {
    let act = active(rows, homes, w);
    let k = width(rows, homes, w) as int;
    &&& plan.worker == w
    &&& plan.k == k
    &&& plan.rows == act.len()
    &&& plan.ids.len() == act.len() * k
    &&& plan.weights.len() == act.len() * k
    &&& plan.hidden_rows.len() == act.len() * h
    &&& forall|c: int, j: int|
        0 <= c < act.len() && 0 <= j < k ==> #[trigger] cell(plan.ids@, c, k, j) == slot_entry(
            homed(rows[act[c]], homes, w),
            j,
            pad,
        ).0
    &&& forall|c: int, j: int|
        0 <= c < act.len() && 0 <= j < k ==> #[trigger] cell(plan.weights@, c, k, j) == slot_entry(
            homed(rows[act[c]], homes, w),
            j,
            pad,
        ).1
    &&& forall|c: int, i: int|
        0 <= c < act.len() && 0 <= i < h ==> #[trigger] cell(plan.hidden_rows@, c, h, i) == cell(
            hidden_rows,
            act[c],
            h,
            i,
        )
}

/// The compact index of row `r` among the first rows that worker `w` serves.
pub open spec fn compact_of(rows: Seq<Seq<Routed>>, homes: Seq<usize>, w: int, r: int) -> nat {
    active(rows.take(r), homes, w).len()
}

proof fn lemma_active_bounds(rows: Seq<Seq<Routed>>, homes: Seq<usize>, w: int)
    ensures
        active(rows, homes, w).len() <= rows.len(),
        forall|c: int|
            0 <= c < active(rows, homes, w).len() ==> {
                &&& 0 <= #[trigger] active(rows, homes, w)[c] < rows.len()
                &&& homed(rows[active(rows, homes, w)[c]], homes, w).len() > 0
            },
        width(rows, homes, w) > 0 <==> active(rows, homes, w).len() > 0,
    decreases rows.len(),
{
    if rows.len() > 0 {
        lemma_active_bounds(rows.drop_last(), homes, w);
    }
}

proof fn lemma_width_bounds(rows: Seq<Seq<Routed>>, homes: Seq<usize>, w: int, r: int)
    requires
        0 <= r < rows.len(),
    ensures
        homed(rows[r], homes, w).len() <= width(rows, homes, w),
    decreases rows.len(),
{
    if r < rows.len() - 1 {
        lemma_width_bounds(rows.drop_last(), homes, w, r);
    }
}

proof fn lemma_homed_len(list: Seq<Routed>, homes: Seq<usize>, w: int)
    ensures
        homed(list, homes, w).len() <= list.len(),
    decreases list.len(),
{
    if list.len() > 0 {
        lemma_homed_len(list.drop_last(), homes, w);
    }
}

/// The entry at gate position `p` is the next one of its worker after those of
/// the positions before it.
proof fn lemma_homed_position(list: Seq<Routed>, homes: Seq<usize>, w: int, p: int)
    requires
        0 <= p < list.len(),
        homes[list[p].0 as int] == w,
    ensures
        homed(list.take(p), homes, w).len() < homed(list, homes, w).len(),
        homed(list, homes, w)[homed(list.take(p), homes, w).len() as int] == list[p],
    decreases list.len(),
{
    if p == list.len() - 1 {
        assert(list.take(p) =~= list.drop_last());
    } else {
        lemma_homed_position(list.drop_last(), homes, w, p);
        assert(list.drop_last().take(p) =~= list.take(p));
    }
}

/// An active row sits at its compact index.
proof fn lemma_compact_index(rows: Seq<Seq<Routed>>, homes: Seq<usize>, w: int, r: int)
    requires
        0 <= r < rows.len(),
        homed(rows[r], homes, w).len() > 0,
    ensures
        compact_of(rows, homes, w, r) < active(rows, homes, w).len(),
        active(rows, homes, w)[compact_of(rows, homes, w, r) as int] == r,
    decreases rows.len(),
{
    if r == rows.len() - 1 {
        assert(rows.take(r) =~= rows.drop_last());
    } else {
        lemma_compact_index(rows.drop_last(), homes, w, r);
        assert(rows.drop_last().take(r) =~= rows.take(r));
    }
}

/// `(c, j)` and the position `c * k + j` determine each other.
proof fn lemma_cell_split(c: int, k: int, j: int)
    requires
        0 <= c,
        0 <= j < k,
    ensures
        (c * k + j) / k == c,
        (c * k + j) % k == j,
{
    vstd::arithmetic::div_mod::lemma_fundamental_div_mod_converse(c * k + j, k, c, j);
}

/// Appending a row to a row-major matrix keeps the rows before it.
proof fn lemma_append_row<T>(m: Seq<T>, row: Seq<T>, n: int, k: int)
    requires
        0 <= n,
        m.len() == n * k,
        row.len() == k,
    ensures
        (m + row).len() == (n + 1) * k,
        forall|c: int, j: int|
            0 <= c < n && 0 <= j < k ==> #[trigger] cell(m + row, c, k, j) == cell(m, c, k, j),
        forall|j: int| 0 <= j < k ==> #[trigger] cell(m + row, n, k, j) == row[j],
{
    assert((n + 1) * k == n * k + k) by (nonlinear_arith);
    assert forall|c: int, j: int| 0 <= c < n && 0 <= j < k implies #[trigger] cell(
        m + row,
        c,
        k,
        j,
    ) == cell(m, c, k, j) by {
        lemma_cell_bound(c, k, j, n);
    }
}

proof fn lemma_cell_bound(c: int, k: int, j: int, n: int)
    requires
        0 <= c < n,
        0 <= j < k,
    ensures
        0 <= c * k + j < n * k,
{
    assert(0 <= c * k + j < n * k) by (nonlinear_arith)
        requires
            0 <= c < n,
            0 <= j < k,
    ;
}

/// All the shares of one frame.
pub struct ChunkPlan {
    /// Per worker, its share of the frame, or nothing where no row needs it.
    pub shares: Vec<Option<WorkerPlan>>,
    /// Per worker and row, the row's index among the rows that worker receives.
    pub row_map: Vec<Vec<Option<usize>>>,
}

/// Row `r`'s index among the rows sent to worker `w`, if it is sent there.
pub open spec fn mapped_row(rows: Seq<Seq<Routed>>, homes: Seq<usize>, w: int, r: int) -> Option<
    nat,
> {
    if homed(rows[r], homes, w).len() > 0 {
        Some(compact_of(rows, homes, w, r))
    } else {
        None
    }
}

/// `chunk` is the plan of a frame: a share for exactly the workers that some
/// row routes to, each as [`plan_for`] says, and the row maps beside them.
pub open spec fn chunk_plan_for(
    chunk: ChunkPlan,
    hidden_rows: Seq<u32>,
    rows: Seq<Seq<Routed>>,
    homes: Seq<usize>,
    n_workers: int,
    h: int,
    pad: i32,
) -> bool {
    &&& chunk.shares.len() == n_workers
    &&& chunk.row_map.len() == n_workers
    &&& forall|w: int| #![trigger chunk.shares[w]]
        0 <= w < n_workers ==> match chunk.shares[w] {
            Some(plan) => width(rows, homes, w) > 0 && plan_for(
                plan,
                hidden_rows,
                rows,
                homes,
                w,
                h,
                pad,
            ),
            None => width(rows, homes, w) == 0,
        }
    &&& forall|w: int| #![trigger chunk.row_map[w]]
        0 <= w < n_workers ==> row_map_for(chunk.row_map[w]@, rows, homes, w)
}

/// `map` gives every row's compact index on worker `w`.
pub open spec fn row_map_for(
    map: Seq<Option<usize>>,
    rows: Seq<Seq<Routed>>,
    homes: Seq<usize>,
    w: int,
) -> bool {
    &&& map.len() == rows.len()
    &&& forall|r: int| #![trigger map[r]]
        0 <= r < rows.len() ==> match mapped_row(rows, homes, w, r) {
            Some(c) => map[r] is Some && map[r]->0 == c,
            None => map[r] is None,
        }
}

/// Where the partial sums of row `r` are found in the replies of the first `n` workers of a
/// fused frame, in the order of the workers: the worker and the row of its reply.
pub open spec fn partials_below(
    maps: Seq<Vec<Option<usize>>>,
    r: int,
    n: int,
) -> Seq<(usize, usize)>
    decreases n,
{
    if n <= 0 {
        Seq::empty()
    } else {
        let before = partials_below(maps, r, n - 1);
        match maps[n - 1][r] {
            Some(c) => before.push(((n - 1) as usize, c)),
            None => before,
        }
    }
}

/// The driver's side of an expert-parallel model: how many workers there are
/// and which dimensions and ids its frames carry.
pub struct EpClient {
    n_workers: usize,
    hidden: usize,
    n_routed: usize,
    n_shared: usize,
    placed: bool,
    fused: bool,
}

/// What the transport allows of a frame, and the id that fills unused slots.
#[derive(Clone, Copy)]
pub struct WireLimits {
    pub max_batch: usize,
    pub max_tensor_bytes: usize,
    pub pad: i32,
}

/// Every id is one of the client's, and its home one of the workers.
pub open spec fn routable(
    rows: Seq<Seq<Routed>>,
    homes: Seq<usize>,
    n_ids: int,
    n_workers: int,
) -> bool {
    &&& homes.len() == n_ids
    &&& forall|id: int| 0 <= id < n_ids ==> #[trigger] homes[id] < n_workers
    &&& forall|r: int, p: int|
        0 <= r < rows.len() && 0 <= p < rows[r].len() ==> (#[trigger] rows[r][p]).0 < n_ids
}

/// As much of a frame's plan as reading its replies needs.
pub open spec fn chunk_shape(
    chunk: ChunkPlan,
    rows: Seq<Seq<Routed>>,
    homes: Seq<usize>,
    n_workers: int,
) -> bool {
    &&& chunk.shares.len() == n_workers
    &&& chunk.row_map.len() == n_workers
    &&& forall|w: int| #![trigger chunk.shares[w]]
        0 <= w < n_workers ==> match chunk.shares[w] {
            Some(plan) => plan.k == width(rows, homes, w) && plan.ids.len() == active(
                rows,
                homes,
                w,
            ).len() * plan.k,
            None => width(rows, homes, w) == 0,
        }
    &&& forall|w: int| #![trigger chunk.row_map[w]]
        0 <= w < n_workers ==> row_map_for(chunk.row_map[w]@, rows, homes, w)
}

/// The reply slot that holds the output of the entry at gate position `p` of row
/// `r`: on the entry's home, in the row's compact row, after the entries that
/// the same worker serves before it.
pub open spec fn gate_slot(rows: Seq<Seq<Routed>>, homes: Seq<usize>, r: int, p: int) -> int {
    let w = homes[rows[r][p].0 as int] as int;
    compact_of(rows, homes, w, r) as int * width(rows, homes, w) as int + homed(
        rows[r].take(p),
        homes,
        w,
    ).len() as int
}

/// The first `n` reads of row `r`.
pub open spec fn reads_row(
    reads: Seq<(usize, usize)>,
    rows: Seq<Seq<Routed>>,
    homes: Seq<usize>,
    r: int,
    n: int,
) -> bool {
    &&& reads.len() == n
    &&& forall|p: int| #![trigger reads[p]]
        0 <= p < n ==> reads[p].0 == homes[rows[r][p].0 as int] && reads[p].1 == gate_slot(
            rows,
            homes,
            r,
            p,
        )
}

fn zeros(n: usize) -> (v: Vec<usize>)
    ensures
        v.len() == n,
        forall|i: int| 0 <= i < n ==> #[trigger] v[i] == 0,
{
    let mut v: Vec<usize> = Vec::new();
    let mut i: usize = 0;
    while i < n
        invariant
            i <= n,
            v.len() == i,
            forall|x: int| 0 <= x < i ==> #[trigger] v[x] == 0,
        decreases n - i,
    {
        v.push(0);
        i += 1;
    }
    v
}

fn homed_list(list: &Vec<Routed>, homes: &[usize], w: usize) -> (out: Vec<Routed>)
    requires
        forall|p: int| 0 <= p < list.len() ==> (#[trigger] list[p]).0 < homes.len(),
    ensures
        out@ == homed(list@, homes@, w as int),
{
    let mut out: Vec<Routed> = Vec::new();
    let mut p: usize = 0;
    while p < list.len()
        invariant
            p <= list.len(),
            out@ == homed(list@.take(p as int), homes@, w as int),
            forall|p: int| 0 <= p < list.len() ==> (#[trigger] list[p]).0 < homes.len(),
        decreases list.len() - p,
    {
        proof {
            assert(list@.take(p + 1).drop_last() =~= list@.take(p as int));
            assert(list@.take(p + 1).last() == list[p as int]);
        }
        let e: Routed = list[p];
        if homes[e.0] == w {
            out.push(e);
        }
        p += 1;
    }
    proof {
        assert(list@.take(list.len() as int) =~= list@);
    }
    out
}

fn padded_row(served: &Vec<Routed>, k: usize, pad: i32) -> (row: (Vec<i32>, Vec<u32>))
    requires
        served.len() <= k,
        forall|p: int| 0 <= p < served.len() ==> (#[trigger] served[p]).0 <= i32::MAX,
    ensures
        row.0.len() == k,
        row.1.len() == k,
        forall|j: int| 0 <= j < k ==> #[trigger] row.0[j] == slot_entry(served@, j, pad).0,
        forall|j: int| 0 <= j < k ==> #[trigger] row.1[j] == slot_entry(served@, j, pad).1,
{
    let mut ids: Vec<i32> = Vec::new();
    let mut weights: Vec<u32> = Vec::new();
    let mut j: usize = 0;
    while j < k
        invariant
            j <= k,
            ids.len() == j,
            weights.len() == j,
            served.len() <= k,
            forall|p: int| 0 <= p < served.len() ==> (#[trigger] served[p]).0 <= i32::MAX,
            forall|i: int| 0 <= i < j ==> #[trigger] ids[i] == slot_entry(served@, i, pad).0,
            forall|i: int| 0 <= i < j ==> #[trigger] weights[i] == slot_entry(served@, i, pad).1,
        decreases k - j,
    {
        if j < served.len() {
            let e: Routed = served[j];
            ids.push(e.0 as i32);
            weights.push(e.1);
        } else {
            ids.push(pad);
            weights.push(0);
        }
        j += 1;
    }
    (ids, weights)
}

fn hidden_row(hidden_rows: &[u32], r: usize, h: usize) -> (row: Vec<u32>)
    requires
        (r + 1) * h <= hidden_rows.len(),
    ensures
        row.len() == h,
        forall|i: int| 0 <= i < h ==> #[trigger] row[i] == cell(hidden_rows@, r as int, h as int, i),
{
    let mut row: Vec<u32> = Vec::new();
    proof {
        assert((r + 1) * h == r * h + h) by (nonlinear_arith);
        assert(r * h >= 0) by (nonlinear_arith);
    }
    let base: usize = r * h;
    let mut i: usize = 0;
    while i < h
        invariant
            i <= h,
            row.len() == i,
            base == r * h,
            base + h <= hidden_rows.len(),
            forall|x: int|
                0 <= x < i ==> #[trigger] row[x] == cell(hidden_rows@, r as int, h as int, x),
        decreases h - i,
    {
        row.push(hidden_rows[base + i]);
        i += 1;
    }
    row
}

proof fn lemma_homed_entries(list: Seq<Routed>, homes: Seq<usize>, w: int, n_ids: int)
    requires
        forall|p: int| 0 <= p < list.len() ==> (#[trigger] list[p]).0 < n_ids,
    ensures
        forall|j: int|
            0 <= j < homed(list, homes, w).len() ==> (#[trigger] homed(list, homes, w)[j]).0 < n_ids,
    decreases list.len(),
{
    if list.len() > 0 {
        lemma_homed_entries(list.drop_last(), homes, w, n_ids);
        let rest = homed(list.drop_last(), homes, w);
        assert forall|j: int| 0 <= j < homed(list, homes, w).len() implies (#[trigger] homed(
            list,
            homes,
            w,
        )[j]).0 < n_ids by {
            if j < rest.len() {
                assert(homed(list, homes, w)[j] == rest[j]);
            } else {
                assert(homed(list, homes, w)[j] == list[list.len() - 1]);
            }
        }
    }
}

proof fn lemma_row_bytes(k: int, h: int)
    requires
        0 < k <= u64::MAX,
        0 < h <= u64::MAX,
    ensures
        0 < k * h <= u64::MAX * u64::MAX,
{
    assert(0 < k * h <= u64::MAX * u64::MAX) by (nonlinear_arith)
        requires
            0 < k <= u64::MAX,
            0 < h <= u64::MAX,
    ;
}

proof fn lemma_row_inside(r: int, n: int, h: int)
    requires
        0 <= r < n,
        0 <= h,
    ensures
        (r + 1) * h <= n * h,
{
    assert((r + 1) * h <= n * h) by (nonlinear_arith)
        requires
            0 <= r < n,
            0 <= h,
    ;
}

/// Why a layer's rows cannot be dispatched.
#[derive(Clone, Copy, PartialEq, Eq, Structural, Debug)]
pub enum DispatchError {
    /// The client has no workers.
    NoWorkers,
    /// The hidden states are not one row of `hidden` values per routed list.
    RowsLength { got: usize, rows: usize, hidden: usize },
    /// A gate weight of the row is infinite or a NaN.
    NonFiniteWeight { row: usize },
    /// The row names an expert twice, which a weighted partial sum cannot carry.
    DuplicateExpert { row: usize },
    /// The row routes to an id beyond the model's experts.
    ExpertOutOfRange { row: usize, id: usize },
}

/// The first position whose id is `n_ids` or more, or the length.
pub open spec fn first_out_of_range(list: Seq<Routed>, n_ids: int) -> int
    decreases list.len(),
{
    if list.len() == 0 {
        0
    } else {
        let before = first_out_of_range(list.drop_last(), n_ids);
        if before < list.len() - 1 || list.last().0 >= n_ids {
            before
        } else {
            list.len() as int
        }
    }
}

pub open spec fn has_non_finite(list: Seq<Routed>) -> bool {
    exists|p: int| 0 <= p < list.len() && !finite_bits((#[trigger] list[p]).1)
}

pub open spec fn has_duplicate(list: Seq<Routed>) -> bool {
    exists|i: int, j: int|
        0 <= i < j < list.len() && (#[trigger] list[i]).0 == (#[trigger] list[j]).0
}

/// What is wrong with one row: a weight before a repetition before an id.
pub open spec fn row_fault(list: Seq<Routed>, row: usize, fused: bool, n_ids: int) -> Option<
    DispatchError,
> {
    if has_non_finite(list) {
        Some(DispatchError::NonFiniteWeight { row })
    } else if fused && has_duplicate(list) {
        Some(DispatchError::DuplicateExpert { row })
    } else if first_out_of_range(list, n_ids) < list.len() {
        Some(
            DispatchError::ExpertOutOfRange { row, id: list[first_out_of_range(list, n_ids)].0 },
        )
    } else {
        None
    }
}

/// The fault of the first faulty row.
pub open spec fn rows_fault(rows: Seq<Seq<Routed>>, fused: bool, n_ids: int) -> Option<
    DispatchError,
>
    decreases rows.len(),
{
    if rows.len() == 0 {
        None
    } else {
        match rows_fault(rows.drop_last(), fused, n_ids) {
            Some(e) => Some(e),
            None => row_fault(rows.last(), (rows.len() - 1) as usize, fused, n_ids),
        }
    }
}

/// The longest list of a frame.
pub open spec fn widest(rows: Seq<Seq<Routed>>) -> nat
    decreases rows.len(),
{
    if rows.len() == 0 {
        0
    } else if rows.last().len() > widest(rows.drop_last()) {
        rows.last().len()
    } else {
        widest(rows.drop_last())
    }
}

/// Rows per frame: at most the batch limit, and no more than fit the reply
/// tensor `[rows, k, hidden]` of four-byte values, but always one.
pub open spec fn frame_rows(limits: WireLimits, k: nat, h: nat) -> nat {
    let fit = limits.max_tensor_bytes as nat / (k * h * 4);
    let by_bytes = if fit < 1 {
        1
    } else {
        fit
    };
    if limits.max_batch <= by_bytes {
        limits.max_batch as nat
    } else {
        by_bytes
    }
}

/// The `i`-th frame of `t` rows cut into frames of `chunk` rows.
pub open spec fn frame_at(i: int, chunk: int, t: int) -> (int, int) {
    (
        i * chunk,
        if (i + 1) * chunk < t {
            (i + 1) * chunk
        } else {
            t
        },
    )
}

/// Consecutive frames of `chunk` rows that together are rows `0..done`.
pub open spec fn frames_cover(frames: Seq<(usize, usize)>, chunk: int, t: int, done: int) -> bool {
    &&& forall|i: int|
        0 <= i < frames.len() ==> (frames[i].0 as int, (#[trigger] frames[i]).1 as int) == frame_at(
            i,
            chunk,
            t,
        )
    &&& done == if frames.len() * chunk < t {
        frames.len() * chunk
    } else {
        t
    }
}

fn any_non_finite(list: &Vec<Routed>) -> (r: bool)
    ensures
        r == has_non_finite(list@),
{
    let mut p: usize = 0;
    while p < list.len()
        invariant
            p <= list.len(),
            forall|i: int| 0 <= i < p ==> finite_bits((#[trigger] list[i]).1),
        decreases list.len() - p,
    {
        if !is_finite_bits(list[p].1) {
            return true;
        }
        p += 1;
    }
    false
}

fn any_duplicate(list: &Vec<Routed>) -> (r: bool)
    ensures
        r == has_duplicate(list@),
{
    let mut j: usize = 0;
    while j < list.len()
        invariant
            j <= list.len(),
            forall|x: int, y: int| 0 <= x < y < j ==> (#[trigger] list[x]).0 != (#[trigger] list[y]).0,
        decreases list.len() - j,
    {
        let mut i: usize = 0;
        while i < j
            invariant
                i <= j < list.len(),
                forall|x: int, y: int|
                    0 <= x < y < j ==> (#[trigger] list[x]).0 != (#[trigger] list[y]).0,
                forall|x: int| 0 <= x < i ==> (#[trigger] list[x]).0 != list[j as int].0,
            decreases j - i,
        {
            if list[i].0 == list[j].0 {
                assert(list@[i as int].0 == list@[j as int].0);
                return true;
            }
            i += 1;
        }
        j += 1;
    }
    false
}

fn find_out_of_range(list: &Vec<Routed>, n_ids: usize) -> (at: usize)
    ensures
        at == first_out_of_range(list@, n_ids as int),
        at <= list.len(),
{
    let mut p: usize = 0;
    while p < list.len()
        invariant
            p <= list.len(),
            first_out_of_range(list@.take(p as int), n_ids as int) == p,
        decreases list.len() - p,
    {
        proof {
            assert(list@.take(p + 1).drop_last() =~= list@.take(p as int));
            assert(list@.take(p + 1).last() == list[p as int]);
        }
        if list[p].0 >= n_ids {
            proof {
                lemma_first_out_stays(list@, p + 1, n_ids as int);
            }
            return p;
        }
        p += 1;
    }
    proof {
        assert(list@.take(list.len() as int) =~= list@);
    }
    p
}

proof fn lemma_first_out_stays(list: Seq<Routed>, n: int, n_ids: int)
    requires
        0 <= n <= list.len(),
        first_out_of_range(list.take(n), n_ids) < n,
    ensures
        first_out_of_range(list, n_ids) == first_out_of_range(list.take(n), n_ids),
    decreases list.len() - n,
{
    if n == list.len() {
        assert(list.take(n) =~= list);
    } else {
        assert(list.take(n + 1).drop_last() =~= list.take(n));
        lemma_first_out_stays(list, n + 1, n_ids);
    }
}

proof fn lemma_rows_fault_stays(rows: Seq<Seq<Routed>>, n: int, fused: bool, n_ids: int)
    requires
        0 <= n <= rows.len(),
        rows_fault(rows.take(n), fused, n_ids) is Some,
    ensures
        rows_fault(rows, fused, n_ids) == rows_fault(rows.take(n), fused, n_ids),
    decreases rows.len() - n,
{
    if n == rows.len() {
        assert(rows.take(n) =~= rows);
    } else {
        assert(rows.take(n + 1).drop_last() =~= rows.take(n));
        lemma_rows_fault_stays(rows, n + 1, fused, n_ids);
    }
}

proof fn lemma_no_fault_in_range(list: Seq<Routed>, n_ids: int)
    requires
        first_out_of_range(list, n_ids) >= list.len(),
    ensures
        forall|p: int| 0 <= p < list.len() ==> (#[trigger] list[p]).0 < n_ids,
    decreases list.len(),
{
    if list.len() > 0 {
        lemma_first_out_bound(list.drop_last(), n_ids);
        lemma_no_fault_in_range(list.drop_last(), n_ids);
        assert forall|p: int| 0 <= p < list.len() implies (#[trigger] list[p]).0 < n_ids by {
            if p < list.len() - 1 {
                assert(list.drop_last()[p] == list[p]);
            }
        }
    }
}

proof fn lemma_first_out_bound(list: Seq<Routed>, n_ids: int)
    ensures
        0 <= first_out_of_range(list, n_ids) <= list.len(),
    decreases list.len(),
{
    if list.len() > 0 {
        lemma_first_out_bound(list.drop_last(), n_ids);
    }
}

/// Rows without a fault name only ids of the model.
pub proof fn law_checked_rows_stay_in_range(
    rows: Seq<Seq<Routed>>,
    fused: bool,
    n_ids: int,
    r: int,
    p: int,
)
    requires
        rows_fault(rows, fused, n_ids) is None,
        0 <= r < rows.len(),
        0 <= p < rows[r].len(),
    ensures
        rows[r][p].0 < n_ids,
        finite_bits(rows[r][p].1),
    decreases rows.len(),
{
    if r == rows.len() - 1 {
        assert(row_fault(rows.last(), (rows.len() - 1) as usize, fused, n_ids) is None);
        assert(finite_bits(rows[r][p].1));
        lemma_no_fault_in_range(rows[r], n_ids);
    } else {
        law_checked_rows_stay_in_range(rows.drop_last(), fused, n_ids, r, p);
    }
}

/// A frame never exceeds the batch limit, and its reply never exceeds the
/// tensor limit unless a single row already does.
pub proof fn law_frames_fit_the_wire(limits: WireLimits, k: nat, h: nat)
    requires
        k > 0,
        h > 0,
    ensures
        frame_rows(limits, k, h) <= limits.max_batch,
        frame_rows(limits, k, h) <= 1 || frame_rows(limits, k, h) * (k * h * 4)
            <= limits.max_tensor_bytes,
{
    let row = k * h * 4;
    assert(row > 0) by (nonlinear_arith)
        requires
            k > 0,
            h > 0,
            row == k * h * 4,
    ;
    let fit = limits.max_tensor_bytes as nat / row;
    let n = frame_rows(limits, k, h);
    vstd::arithmetic::div_mod::lemma_fundamental_div_mod(
        limits.max_tensor_bytes as int,
        row as int,
    );
    if n > 1 {
        assert(n * row <= fit * row) by (nonlinear_arith)
            requires
                n <= fit,
        ;
        assert(fit * row == row * fit) by (nonlinear_arith);
    }
}

impl EpClient {
    pub closed spec fn workers(self) -> nat {
        self.n_workers as nat
    }

    pub closed spec fn width_of_rows(self) -> nat {
        self.hidden as nat
    }

    pub closed spec fn routed_ids(self) -> nat {
        self.n_routed as nat
    }

    pub closed spec fn shared_ids(self) -> nat {
        self.n_shared as nat
    }

    pub closed spec fn is_placed(self) -> bool {
        self.placed
    }

    pub closed spec fn is_fused(self) -> bool {
        self.fused
    }

    /// The ids that rows may route to: the routed experts, then the shared ones.
    pub open spec fn ids(self) -> nat {
        self.routed_ids() + self.shared_ids()
    }

    /// Dimensions are positive and every id fits the wire's 32-bit id.
    pub open spec fn wf(self) -> bool {
        &&& self.width_of_rows() > 0
        &&& self.routed_ids() > 0
        &&& self.ids() <= i32::MAX
    }

    /// A client of `n_workers` workers for a model of these dimensions. `fused`
    /// opts into weighted partial sums.
    pub fn new(n_workers: usize, hidden: usize, n_routed: usize, n_shared: usize, fused: bool) -> (c:
        Self)
        requires
            hidden > 0,
            n_routed > 0,
            n_routed + n_shared <= i32::MAX,
        ensures
            c.wf(),
            c.workers() == n_workers,
            c.width_of_rows() == hidden,
            c.routed_ids() == n_routed,
            c.shared_ids() == n_shared,
            !c.is_placed(),
            c.is_fused() == fused,
    {
        EpClient { n_workers, hidden, n_routed, n_shared, placed: false, fused }
    }

    /// Switches to an explicit placement for a model of these dimensions, which
    /// must be the client's own.
    pub fn with_placement(self, hidden: usize, n_routed: usize, n_shared: usize) -> (r: Option<Self>)
        ensures
            r is Some <==> (hidden == self.width_of_rows() && n_routed == self.routed_ids()
                && n_shared == self.shared_ids()),
            r matches Some(c) ==> {
                &&& c.is_placed()
                &&& c.workers() == self.workers()
                &&& c.width_of_rows() == self.width_of_rows()
                &&& c.routed_ids() == self.routed_ids()
                &&& c.shared_ids() == self.shared_ids()
                &&& c.is_fused() == self.is_fused()
            },
    {
        if self.hidden != hidden || self.n_routed != n_routed || self.n_shared != n_shared {
            return None;
        }
        Some(EpClient { placed: true, ..self })
    }

    /// Switches the weighted partial-sum protocol on or off.
    pub fn with_fused(self, fused: bool) -> (c: Self)
        ensures
            c.is_fused() == fused,
            c.is_placed() == self.is_placed(),
            c.workers() == self.workers(),
            c.width_of_rows() == self.width_of_rows(),
            c.routed_ids() == self.routed_ids(),
            c.shared_ids() == self.shared_ids(),
    {
        EpClient { fused, ..self }
    }

    pub fn n_workers(&self) -> (n: usize)
        ensures
            n == self.workers(),
    {
        self.n_workers
    }

    pub fn hidden(&self) -> (n: usize)
        ensures
            n == self.width_of_rows(),
    {
        self.hidden
    }

    pub fn n_routed(&self) -> (n: usize)
        ensures
            n == self.routed_ids(),
    {
        self.n_routed
    }

    pub fn n_shared(&self) -> (n: usize)
        ensures
            n == self.shared_ids(),
    {
        self.n_shared
    }

    pub fn placed(&self) -> (b: bool)
        ensures
            b == self.is_placed(),
    {
        self.placed
    }

    pub fn fused(&self) -> (b: bool)
        ensures
            b == self.is_fused(),
    {
        self.fused
    }

    /// Checks a layer's rows before anything is sent and gives the longest list.
    pub fn check_rows(&self, rows_len: usize, per_row: &[Vec<Routed>]) -> (r: Result<
        usize,
        DispatchError,
    >)
        requires
            self.wf(),
        ensures
            r == (if self.workers() == 0 {
                Err::<usize, DispatchError>(DispatchError::NoWorkers)
            } else if rows_len != per_row.len() * self.width_of_rows() {
                Err(
                    DispatchError::RowsLength {
                        got: rows_len,
                        rows: per_row.len(),
                        hidden: self.width_of_rows() as usize,
                    },
                )
            } else {
                match rows_fault(lists(per_row@), self.is_fused(), self.ids() as int) {
                    Some(e) => Err(e),
                    None => Ok(widest(lists(per_row@)) as usize),
                }
            }),
            r is Ok ==> r->Ok_0 == widest(lists(per_row@)),
    {
        if self.n_workers == 0 {
            return Err(DispatchError::NoWorkers);
        }
        let t: usize = per_row.len();
        proof {
            assert(t * self.hidden <= u64::MAX * u64::MAX) by (nonlinear_arith)
                requires
                    t <= u64::MAX,
                    self.hidden <= u64::MAX,
            ;
            assert(0 <= t * self.hidden) by (nonlinear_arith);
        }
        if rows_len as u128 != t as u128 * self.hidden as u128 {
            return Err(DispatchError::RowsLength { got: rows_len, rows: t, hidden: self.hidden });
        }
        let n_ids: usize = self.n_routed + self.n_shared;
        let ghost rows = lists(per_row@);
        let mut k_max: usize = 0;
        let mut r: usize = 0;
        while r < per_row.len()
            invariant
                rows == lists(per_row@),
                r <= per_row.len(),
                n_ids == self.ids(),
                self.workers() > 0,
                rows_len == per_row.len() * self.width_of_rows(),
                k_max == widest(rows.take(r as int)),
                rows_fault(rows.take(r as int), self.fused, n_ids as int) is None,
            decreases per_row.len() - r,
        {
            let list: &Vec<Routed> = &per_row[r];
            proof {
                assert(rows.take(r + 1).drop_last() =~= rows.take(r as int));
                assert(rows.take(r + 1).last() == list@);
            }
            let fault: Option<DispatchError> = if any_non_finite(list) {
                Some(DispatchError::NonFiniteWeight { row: r })
            } else if self.fused && any_duplicate(list) {
                Some(DispatchError::DuplicateExpert { row: r })
            } else {
                let at: usize = find_out_of_range(list, n_ids);
                if at < list.len() {
                    Some(DispatchError::ExpertOutOfRange { row: r, id: list[at].0 })
                } else {
                    None
                }
            };
            if let Some(e) = fault {
                proof {
                    lemma_rows_fault_stays(rows, r + 1, self.fused, n_ids as int);
                }
                return Err(e);
            }
            if list.len() > k_max {
                k_max = list.len();
            }
            r += 1;
        }
        proof {
            assert(rows.take(rows.len() as int) =~= rows);
        }
        Ok(k_max)
    }

    /// Checks a layer's rows and cuts them into frames: none where no row routes
    /// anywhere, otherwise consecutive frames of [`frame_rows`] rows.
    pub fn dispatch(&self, limits: WireLimits, rows_len: usize, per_row: &[Vec<Routed>]) -> (r:
        Result<Vec<(usize, usize)>, DispatchError>)
        requires
            self.wf(),
            limits.max_batch > 0,
        ensures
            match r {
                Err(e) => {
                    ||| self.workers() == 0 && e == DispatchError::NoWorkers
                    ||| self.workers() > 0 && rows_len != per_row.len() * self.width_of_rows() && e
                        == (DispatchError::RowsLength {
                        got: rows_len,
                        rows: per_row.len(),
                        hidden: self.width_of_rows() as usize,
                    })
                    ||| self.workers() > 0 && rows_len == per_row.len() * self.width_of_rows()
                        && rows_fault(lists(per_row@), self.is_fused(), self.ids() as int) == Some(e)
                },
                Ok(frames) => {
                    let k = widest(lists(per_row@));
                    let chunk = frame_rows(limits, k, self.width_of_rows()) as int;
                    &&& self.workers() > 0
                    &&& rows_len == per_row.len() * self.width_of_rows()
                    &&& rows_fault(lists(per_row@), self.is_fused(), self.ids() as int) is None
                    &&& k == 0 ==> frames.len() == 0
                    &&& k > 0 ==> chunk > 0 && frames_cover(
                        frames@,
                        chunk,
                        per_row.len() as int,
                        per_row.len() as int,
                    ) && (frames.len() - 1) * chunk < per_row.len()
                },
            },
    {
        let k_max: usize = match self.check_rows(rows_len, per_row) {
            Ok(k) => k,
            Err(e) => return Err(e),
        };
        let mut frames: Vec<(usize, usize)> = Vec::new();
        let t: usize = per_row.len();
        if t == 0 || k_max == 0 {
            return Ok(frames);
        }
        proof {
            lemma_row_bytes(k_max as int, self.hidden as int);
        }
        let row: u128 = k_max as u128 * self.hidden as u128;
        let fit: u128 = if row > limits.max_tensor_bytes as u128 {
            0
        } else {
            limits.max_tensor_bytes as u128 / (row * 4)
        };
        proof {
            assert(row * 4 == k_max as nat * self.width_of_rows() * 4);
            if row > limits.max_tensor_bytes {
                assert(limits.max_tensor_bytes as int / (row * 4) == 0) by (nonlinear_arith)
                    requires
                        0 <= limits.max_tensor_bytes < row * 4,
                ;
            } else {
                assert(limits.max_tensor_bytes as int / (row * 4) <= limits.max_tensor_bytes)
                    by (nonlinear_arith)
                    requires
                        row * 4 > 0,
                        0 <= limits.max_tensor_bytes,
                ;
            }
        }
        let by_bytes: usize = if fit < 1 {
            1
        } else {
            fit as usize
        };
        let chunk: usize = if limits.max_batch <= by_bytes {
            limits.max_batch
        } else {
            by_bytes
        };
        assert(chunk == frame_rows(limits, k_max as nat, self.width_of_rows()));
        let mut lo: usize = 0;
        proof {
            assert((0 - 1) * chunk < t && 0 * chunk == 0) by (nonlinear_arith)
                requires
                    chunk > 0,
            ;
        }
        while lo < t
            invariant
                lo <= t,
                chunk > 0,
                t > 0,
                frames_cover(frames@, chunk as int, t as int, lo as int),
                (frames.len() - 1) * chunk < t,
            decreases t - lo,
        {
            let hi: usize = if t - lo < chunk {
                t
            } else {
                lo + chunk
            };
            proof {
                let n = frames.len() as int;
                assert((n + 1) * chunk == n * chunk + chunk) by (nonlinear_arith);
            }
            frames.push((lo, hi));
            lo = hi;
        }
        Ok(frames)
    }

    /// One worker's share of a frame together with its row map.
    fn worker_share(
        &self,
        hidden_rows: &[u32],
        per_row: &[Vec<Routed>],
        homes: &[usize],
        w: usize,
        pad: i32,
    ) -> (share: (Option<WorkerPlan>, Vec<Option<usize>>))
        requires
            self.wf(),
            hidden_rows.len() == per_row.len() * self.width_of_rows(),
            routable(lists(per_row@), homes@, self.ids() as int, self.workers() as int),
        ensures
            match share.0 {
                Some(plan) => width(lists(per_row@), homes@, w as int) > 0 && plan_for(
                    plan,
                    hidden_rows@,
                    lists(per_row@),
                    homes@,
                    w as int,
                    self.width_of_rows() as int,
                    pad,
                ),
                None => width(lists(per_row@), homes@, w as int) == 0,
            },
            row_map_for(share.1@, lists(per_row@), homes@, w as int),
    {
        let ghost rows = lists(per_row@);
        let ghost n = rows.len() as int;
        let h: usize = self.hidden;
        let mut served: Vec<Vec<Routed>> = Vec::new();
        let mut k: usize = 0;
        let mut r: usize = 0;
        while r < per_row.len()
            invariant
                rows == lists(per_row@),
                r <= per_row.len(),
                served.len() == r,
                self.wf(),
                routable(rows, homes@, self.ids() as int, self.workers() as int),
                forall|i: int|
                    0 <= i < r ==> #[trigger] served[i]@ == homed(rows[i], homes@, w as int),
                k == width(rows.take(r as int), homes@, w as int),
            decreases per_row.len() - r,
        {
            proof {
                assert(rows[r as int] == per_row[r as int]@);
                assert forall|p: int| 0 <= p < per_row[r as int].len() implies (
                #[trigger] per_row[r as int][p]).0 < homes.len() by {
                    assert(rows[r as int][p].0 < self.ids());
                }
                assert(rows.take(r + 1).drop_last() =~= rows.take(r as int));
                assert(rows.take(r + 1).last() == rows[r as int]);
            }
            let s: Vec<Routed> = homed_list(&per_row[r], homes, w);
            if s.len() > k {
                k = s.len();
            }
            served.push(s);
            r += 1;
        }
        proof {
            assert(rows.take(n) =~= rows);
        }
        let mut map: Vec<Option<usize>> = Vec::new();
        let mut ids: Vec<i32> = Vec::new();
        let mut weights: Vec<u32> = Vec::new();
        let mut hidden: Vec<u32> = Vec::new();
        let mut compact: usize = 0;
        r = 0;
        proof {
            assert(rows.take(0) =~= Seq::<Seq<Routed>>::empty());
            assert(0 * (k as int) == 0 && 0 * (h as int) == 0) by (nonlinear_arith);
        }
        while r < per_row.len()
            invariant
                rows == lists(per_row@),
                n == rows.len(),
                r <= per_row.len(),
                h == self.width_of_rows(),
                served.len() == per_row.len(),
                self.wf(),
                hidden_rows.len() == per_row.len() * h,
                routable(rows, homes@, self.ids() as int, self.workers() as int),
                forall|i: int|
                    0 <= i < n ==> #[trigger] served[i]@ == homed(rows[i], homes@, w as int),
                k == width(rows, homes@, w as int),
                compact == active(rows.take(r as int), homes@, w as int).len(),
                compact <= r,
                ids.len() == compact * k,
                weights.len() == compact * k,
                hidden.len() == compact * h,
                map.len() == r,
                forall|i: int| #![trigger map[i]]
                    0 <= i < r ==> match mapped_row(rows, homes@, w as int, i) {
                        Some(c) => map[i] is Some && map[i]->0 == c,
                        None => map[i] is None,
                    },
                forall|c: int, j: int|
                    0 <= c < compact && 0 <= j < k ==> #[trigger] cell(ids@, c, k as int, j)
                        == slot_entry(
                        homed(
                            rows[active(rows.take(r as int), homes@, w as int)[c]],
                            homes@,
                            w as int,
                        ),
                        j,
                        pad,
                    ).0,
                forall|c: int, j: int|
                    0 <= c < compact && 0 <= j < k ==> #[trigger] cell(weights@, c, k as int, j)
                        == slot_entry(
                        homed(
                            rows[active(rows.take(r as int), homes@, w as int)[c]],
                            homes@,
                            w as int,
                        ),
                        j,
                        pad,
                    ).1,
                forall|c: int, i: int|
                    0 <= c < compact && 0 <= i < h ==> #[trigger] cell(hidden@, c, h as int, i)
                        == cell(
                        hidden_rows@,
                        active(rows.take(r as int), homes@, w as int)[c],
                        h as int,
                        i,
                    ),
            decreases per_row.len() - r,
        {
            let ghost before = active(rows.take(r as int), homes@, w as int);
            proof {
                assert(rows.take(r + 1).drop_last() =~= rows.take(r as int));
                assert(rows.take(r + 1).last() == rows[r as int]);
                lemma_active_bounds(rows.take(r as int), homes@, w as int);
                lemma_width_bounds(rows, homes@, w as int, r as int);
                lemma_row_inside(r as int, n, h as int);
                assert forall|p: int| 0 <= p < rows[r as int].len() implies (
                #[trigger] rows[r as int][p]).0 < self.ids() by {}
                lemma_homed_entries(rows[r as int], homes@, w as int, self.ids() as int);
            }
            if served[r].len() == 0 {
                map.push(None);
            } else {
                map.push(Some(compact));
                let (mut row_ids, mut row_weights): (Vec<i32>, Vec<u32>) = padded_row(
                    &served[r],
                    k,
                    pad,
                );
                let mut row_hidden: Vec<u32> = hidden_row(hidden_rows, r, h);
                proof {
                    lemma_append_row(ids@, row_ids@, compact as int, k as int);
                    lemma_append_row(weights@, row_weights@, compact as int, k as int);
                    lemma_append_row(hidden@, row_hidden@, compact as int, h as int);
                    assert(active(rows.take(r + 1), homes@, w as int) == before.push(r as int));
                }
                ids.append(&mut row_ids);
                weights.append(&mut row_weights);
                hidden.append(&mut row_hidden);
                compact += 1;
            }
            r += 1;
        }
        proof {
            assert(rows.take(n) =~= rows);
            lemma_active_bounds(rows, homes@, w as int);
        }
        if k == 0 {
            (None, map)
        } else {
            (
                Some(
                    WorkerPlan { worker: w, k, rows: compact, ids, weights, hidden_rows: hidden },
                ),
                map,
            )
        }
    }

    /// Where the partial sums of a fused frame of `rows` rows are found: per row, in the
    /// order of the workers, the worker and the row of its reply.
    pub fn fused_reads(&self, chunk: &ChunkPlan, rows: usize) -> (reads: Vec<Vec<(usize, usize)>>)
        requires
            forall|w: int|
                0 <= w < chunk.row_map.len() ==> (#[trigger] chunk.row_map[w]).len() == rows,
        ensures
            reads.len() == rows,
            forall|r: int|
                0 <= r < rows ==> (#[trigger] reads[r])@ == partials_below(
                    chunk.row_map@,
                    r,
                    chunk.row_map.len() as int,
                ),
    {
        let mut reads: Vec<Vec<(usize, usize)>> = Vec::new();
        let mut r: usize = 0;
        while r < rows
            invariant
                forall|w: int|
                    0 <= w < chunk.row_map.len() ==> (#[trigger] chunk.row_map[w]).len() == rows,
                r <= rows,
                reads.len() == r,
                forall|i: int|
                    0 <= i < r ==> (#[trigger] reads[i])@ == partials_below(
                        chunk.row_map@,
                        i,
                        chunk.row_map.len() as int,
                    ),
            decreases rows - r,
        {
            let mut row: Vec<(usize, usize)> = Vec::new();
            let mut w: usize = 0;
            while w < chunk.row_map.len()
                invariant
                    forall|w: int|
                        0 <= w < chunk.row_map.len() ==> (#[trigger] chunk.row_map[w]).len()
                            == rows,
                    r < rows,
                    w <= chunk.row_map.len(),
                    row@ == partials_below(chunk.row_map@, r as int, w as int),
                decreases chunk.row_map.len() - w,
            {
                if let Some(c) = chunk.row_map[w][r] {
                    row.push((w, c));
                }
                w += 1;
            }
            reads.push(row);
            r += 1;
        }
        reads
    }

    /// Where the output of every routed entry is found in the replies: per row
    /// and gate position, the worker and the slot of its reply.
    pub fn gate_reads(
        &self,
        chunk: &ChunkPlan,
        per_row: &[Vec<Routed>],
        homes: &[usize],
    ) -> (reads: Vec<Vec<(usize, usize)>>)
        requires
            self.wf(),
            routable(lists(per_row@), homes@, self.ids() as int, self.workers() as int),
            chunk_shape(*chunk, lists(per_row@), homes@, self.workers() as int),
        ensures
            reads.len() == per_row.len(),
            forall|r: int| 0 <= r < per_row.len() ==> #[trigger] reads_row(
                reads[r]@,
                lists(per_row@),
                homes@,
                r,
                per_row[r].len() as int,
            ),
    {
        let ghost rows = lists(per_row@);
        let mut reads: Vec<Vec<(usize, usize)>> = Vec::new();
        let mut r: usize = 0;
        while r < per_row.len()
            invariant
                rows == lists(per_row@),
                self.wf(),
                routable(rows, homes@, self.ids() as int, self.workers() as int),
                chunk_shape(*chunk, rows, homes@, self.workers() as int),
                r <= per_row.len(),
                reads.len() == r,
                forall|i: int|
                    0 <= i < r ==> #[trigger] reads_row(
                        reads[i]@,
                        rows,
                        homes@,
                        i,
                        per_row[i].len() as int,
                    ),
            decreases per_row.len() - r,
        {
            let list: &Vec<Routed> = &per_row[r];
            let mut cursor: Vec<usize> = zeros(self.n_workers);
            let mut row: Vec<(usize, usize)> = Vec::new();
            let mut p: usize = 0;
            proof {
                assert(rows[r as int] == list@);
                assert(list@.take(0) =~= Seq::<Routed>::empty());
            }
            while p < list.len()
                invariant
                    rows == lists(per_row@),
                    self.wf(),
                    routable(rows, homes@, self.ids() as int, self.workers() as int),
                    chunk_shape(*chunk, rows, homes@, self.workers() as int),
                    self.n_workers == self.workers(),
                    r < per_row.len(),
                    list@ == rows[r as int],
                    p <= list.len(),
                    cursor.len() == self.n_workers,
                    forall|w: int|
                        0 <= w < cursor.len() ==> #[trigger] cursor[w] == homed(
                            list@.take(p as int),
                            homes@,
                            w,
                        ).len(),
                    reads_row(row@, rows, homes@, r as int, p as int),
                decreases list.len() - p,
            {
                let e: Routed = list[p];
                proof {
                    assert(rows[r as int][p as int].0 < self.ids());
                }
                let w: usize = homes[e.0];
                proof {
                    let wi = w as int;
                    lemma_homed_position(list@, homes@, wi, p as int);
                    lemma_compact_index(rows, homes@, wi, r as int);
                    lemma_width_bounds(rows, homes@, wi, r as int);
                    lemma_cell_bound(
                        compact_of(rows, homes@, wi, r as int) as int,
                        width(rows, homes@, wi) as int,
                        cursor[wi] as int,
                        active(rows, homes@, wi).len() as int,
                    );
                    assert(mapped_row(rows, homes@, wi, r as int) is Some);
                    let map = chunk.row_map[wi]@;
                    assert(row_map_for(map, rows, homes@, wi));
                    assert(map[r as int] is Some);
                    assert(chunk.shares[wi] is Some);
                    assert(list@.take(p + 1).drop_last() =~= list@.take(p as int));
                    assert(list@.take(p + 1).last() == list[p as int]);
                    assert(compact_of(rows, homes@, wi, r as int) * width(rows, homes@, wi) >= 0)
                        by (nonlinear_arith);
                    lemma_homed_len(list@.take(p as int), homes@, wi);
                }
                let compact: usize = chunk.row_map[w][r].unwrap();
                let k: usize = chunk.shares[w].as_ref().unwrap().k;
                let j: usize = cursor[w];
                row.push((w, compact * k + j));
                cursor.set(w, j + 1);
                p += 1;
            }
            proof {
                assert(list@.take(list.len() as int) =~= list@);
            }
            reads.push(row);
            r += 1;
        }
        reads
    }

    /// Plans one frame: which rows each worker receives, and which ids it serves
    /// in each of their slots.
    pub fn dispatch_chunk(
        &self,
        hidden_rows: &[u32],
        per_row: &[Vec<Routed>],
        homes: &[usize],
        pad: i32,
    ) -> (chunk: ChunkPlan)
        requires
            self.wf(),
            hidden_rows.len() == per_row.len() * self.width_of_rows(),
            routable(lists(per_row@), homes@, self.ids() as int, self.workers() as int),
        ensures
            chunk_plan_for(
                chunk,
                hidden_rows@,
                lists(per_row@),
                homes@,
                self.workers() as int,
                self.width_of_rows() as int,
                pad,
            ),
    {
        let mut shares: Vec<Option<WorkerPlan>> = Vec::new();
        let mut row_map: Vec<Vec<Option<usize>>> = Vec::new();
        let mut w: usize = 0;
        while w < self.n_workers
            invariant
                self.wf(),
                hidden_rows.len() == per_row.len() * self.width_of_rows(),
                routable(lists(per_row@), homes@, self.ids() as int, self.workers() as int),
                w <= self.n_workers,
                self.n_workers == self.workers(),
                shares.len() == w,
                row_map.len() == w,
                forall|x: int| #![trigger shares[x]]
                    0 <= x < w ==> match shares[x] {
                        Some(plan) => width(lists(per_row@), homes@, x) > 0 && plan_for(
                            plan,
                            hidden_rows@,
                            lists(per_row@),
                            homes@,
                            x,
                            self.width_of_rows() as int,
                            pad,
                        ),
                        None => width(lists(per_row@), homes@, x) == 0,
                    },
                forall|x: int| #![trigger row_map[x]]
                    0 <= x < w ==> row_map_for(row_map[x]@, lists(per_row@), homes@, x),
            decreases self.n_workers - w,
        {
            let (share, map): (Option<WorkerPlan>, Vec<Option<usize>>) = self.worker_share(
                hidden_rows,
                per_row,
                homes,
                w,
                pad,
            );
            shares.push(share);
            row_map.push(map);
            w += 1;
        }
        ChunkPlan { shares, row_map }
    }
}

/// The slot that the driver reads for an entry is the slot that carries the
/// entry's id, and its compact row carries the hidden state of the entry's row.
pub proof fn law_gate_slot_carries_its_entry(
    chunk: ChunkPlan,
    hidden_rows: Seq<u32>,
    rows: Seq<Seq<Routed>>,
    homes: Seq<usize>,
    n_ids: int,
    n_workers: int,
    h: int,
    pad: i32,
    r: int,
    p: int,
)
    requires
        n_ids <= i32::MAX,
        routable(rows, homes, n_ids, n_workers),
        chunk_plan_for(chunk, hidden_rows, rows, homes, n_workers, h, pad),
        0 <= r < rows.len(),
        0 <= p < rows[r].len(),
    ensures
        ({
            let e = rows[r][p];
            let w = homes[e.0 as int] as int;
            let s = gate_slot(rows, homes, r, p);
            &&& 0 <= w < n_workers
            &&& chunk.shares[w] is Some
            &&& {
                let plan = chunk.shares[w]->0;
                &&& 0 <= s < plan.ids.len()
                &&& plan.ids[s] == e.0
                &&& plan.weights[s] == e.1
                &&& forall|i: int|
                    0 <= i < h ==> #[trigger] cell(plan.hidden_rows@, s / plan.k as int, h, i)
                        == cell(hidden_rows, r, h, i)
            }
        }),
{
    let e = rows[r][p];
    let w = homes[e.0 as int] as int;
    let c = compact_of(rows, homes, w, r) as int;
    let k = width(rows, homes, w) as int;
    let j = homed(rows[r].take(p), homes, w).len() as int;
    lemma_homed_position(rows[r], homes, w, p);
    lemma_compact_index(rows, homes, w, r);
    lemma_width_bounds(rows, homes, w, r);
    lemma_cell_bound(c, k, j, active(rows, homes, w).len() as int);
    lemma_cell_split(c, k, j);
    assert(chunk.shares[w] is Some);
    let plan = chunk.shares[w]->0;
    assert(cell(plan.ids@, c, k, j) == slot_entry(homed(rows[r], homes, w), j, pad).0);
    assert(cell(plan.weights@, c, k, j) == slot_entry(homed(rows[r], homes, w), j, pad).1);
    assert forall|i: int| 0 <= i < h implies #[trigger] cell(plan.hidden_rows@, c, h, i) == cell(
        hidden_rows,
        r,
        h,
        i,
    ) by {}
}

/// The compact row that a gate slot lies in is one of the share's rows.
pub proof fn lemma_slot_row(
    chunk: ChunkPlan,
    hidden_rows: Seq<u32>,
    rows: Seq<Seq<Routed>>,
    homes: Seq<usize>,
    n_workers: int,
    h: int,
    pad: i32,
    r: int,
    p: int,
)
    requires
        chunk_plan_for(chunk, hidden_rows, rows, homes, n_workers, h, pad),
        0 <= r < rows.len(),
        0 <= p < rows[r].len(),
        0 <= homes[rows[r][p].0 as int] < n_workers,
    ensures
        ({
            let w = homes[rows[r][p].0 as int] as int;
            let plan = chunk.shares[w]->0;
            &&& chunk.shares[w] is Some
            &&& 0 <= gate_slot(rows, homes, r, p) / (plan.k as int) < plan.rows
            &&& plan.hidden_rows.len() == plan.rows * h
        }),
{
    let w = homes[rows[r][p].0 as int] as int;
    let c = compact_of(rows, homes, w, r) as int;
    let k = width(rows, homes, w) as int;
    let j = homed(rows[r].take(p), homes, w).len() as int;
    lemma_homed_position(rows[r], homes, w, p);
    lemma_compact_index(rows, homes, w, r);
    lemma_width_bounds(rows, homes, w, r);
    lemma_cell_split(c, k, j);
    assert(chunk.shares[w] is Some);
}

/// A fused frame adds, for every row, the partial sum of each worker that serves an entry
/// of the row exactly once, in the order of the workers, and no other.
pub proof fn law_each_partial_is_added_once(
    maps: Seq<Vec<Option<usize>>>,
    rows: Seq<Seq<Routed>>,
    homes: Seq<usize>,
    r: int,
    n: int,
)
    requires
        0 <= n <= maps.len() <= usize::MAX,
        forall|w: int|
            #![trigger maps[w]]
            0 <= w < maps.len() ==> row_map_for(maps[w]@, rows, homes, w),
        0 <= r < rows.len(),
    ensures
        ({
            let s = partials_below(maps, r, n);
            &&& forall|i: int, j: int|
                0 <= i < j < s.len() ==> (#[trigger] s[i]).0 < (#[trigger] s[j]).0
            &&& forall|i: int|
                0 <= i < s.len() ==> (#[trigger] s[i]).0 < n && mapped_row(
                    rows,
                    homes,
                    s[i].0 as int,
                    r,
                ) == Some(s[i].1 as nat)
            &&& forall|w: int|
                0 <= w < n && homed(rows[r], homes, w).len() > 0 ==> exists|i: int|
                    0 <= i < s.len() && (#[trigger] s[i]).0 == w
        }),
    decreases n,
{
    if n > 0 {
        law_each_partial_is_added_once(maps, rows, homes, r, n - 1);
        let before = partials_below(maps, r, n - 1);
        let s = partials_below(maps, r, n);
        let map = maps[n - 1]@;
        assert(row_map_for(map, rows, homes, n - 1));
        assert(map[r] == maps[n - 1][r]);
        assert forall|w: int| 0 <= w < n && homed(rows[r], homes, w).len() > 0 implies exists|i: int|
            0 <= i < s.len() && (#[trigger] s[i]).0 == w by {
            if w < n - 1 {
                let i = choose|i: int| 0 <= i < before.len() && (#[trigger] before[i]).0 == w;
                assert(s[i] == before[i]);
            } else {
                assert(mapped_row(rows, homes, w, r) is Some);
                assert(s[s.len() - 1].0 == w);
            }
        }
    }
}

/// Every row of a layer is in exactly one frame.
pub proof fn law_every_row_in_one_frame(frames: Seq<(usize, usize)>, chunk: int, t: int, r: int)
    requires
        chunk > 0,
        frames_cover(frames, chunk, t, t),
        (frames.len() - 1) * chunk < t,
        0 <= r < t,
    ensures
        exists|i: int|
            0 <= i < frames.len() && (#[trigger] frames[i]).0 <= r < frames[i].1,
        forall|i: int, j: int|
            0 <= i < frames.len() && 0 <= j < frames.len() && (#[trigger] frames[i]).0 <= r
                < frames[i].1 && (#[trigger] frames[j]).0 <= r < frames[j].1 ==> i == j,
{
    let q = r / chunk;
    vstd::arithmetic::div_mod::lemma_fundamental_div_mod(r, chunk);
    assert(0 <= r % chunk < chunk);
    assert(chunk * q == q * chunk) by (nonlinear_arith);
    assert((q + 1) * chunk == q * chunk + chunk) by (nonlinear_arith);
    assert(q >= 0) by (nonlinear_arith)
        requires
            q == r / chunk,
            r >= 0,
            chunk > 0,
    ;
    assert(q < frames.len()) by (nonlinear_arith)
        requires
            q * chunk <= r < t,
            frames.len() * chunk >= t,
            chunk > 0,
    ;
    assert(frames[q].0 <= r < frames[q].1);
    assert forall|i: int|
        0 <= i < frames.len() && (#[trigger] frames[i]).0 <= r < frames[i].1 implies i == q by {
        assert((i + 1) * chunk == i * chunk + chunk) by (nonlinear_arith);
        assert(i == q) by (nonlinear_arith)
            requires
                i * chunk <= r < i * chunk + chunk,
                q * chunk <= r < q * chunk + chunk,
                chunk > 0,
        ;
    }
}

// -------------------------------------------------------------------- replies

/// The longest time span there is, in nanoseconds.
pub const LONGEST_NANOS: u128 = 18_446_744_073_709_551_615_999_999_999;

/// How far the widened deadline stays under the transport's idle ceiling.
pub const PREFILL_DEADLINE_MARGIN_NANOS: u128 = 5_000_000_000;

/// The bound on one worker's reply, in nanoseconds: the activation timeout for
/// one row; for a batch that timeout widened by `factor`, kept a margin under
/// the idle ceiling but never below the activation timeout.
pub open spec fn deadline(rows: u32, base: nat, factor: nat, ceiling: Option<u128>) -> nat {
    if rows <= 1 {
        base
    } else {
        let product = base * factor;
        let widened = if product > LONGEST_NANOS {
            LONGEST_NANOS as nat
        } else {
            product
        };
        match ceiling {
            None => widened,
            Some(c) => {
                let under = if c > PREFILL_DEADLINE_MARGIN_NANOS {
                    (c - PREFILL_DEADLINE_MARGIN_NANOS) as nat
                } else {
                    0
                };
                let cap = if under > base {
                    under
                } else {
                    base
                };
                if widened < cap {
                    widened
                } else {
                    cap
                }
            },
        }
    }
}

pub fn reply_deadline(rows: u32, base: u128, factor: u32, ceiling: Option<u128>) -> (d: u128)
    requires
        base <= LONGEST_NANOS,
    ensures
        d == deadline(rows, base as nat, factor as nat, ceiling),
{
    if rows <= 1 {
        return base;
    }
    proof {
        assert(0 <= base * factor <= LONGEST_NANOS * u32::MAX) by (nonlinear_arith)
            requires
                0 <= base <= LONGEST_NANOS,
                0 <= factor <= u32::MAX,
        ;
    }
    let product: u128 = base * factor as u128;
    let widened: u128 = if product > LONGEST_NANOS {
        LONGEST_NANOS
    } else {
        product
    };
    match ceiling {
        None => widened,
        Some(c) => {
            let under: u128 = if c > PREFILL_DEADLINE_MARGIN_NANOS {
                c - PREFILL_DEADLINE_MARGIN_NANOS
            } else {
                0
            };
            let cap: u128 = if under > base {
                under
            } else {
                base
            };
            if widened < cap {
                widened
            } else {
                cap
            }
        },
    }
}

/// A batch never gets less time than one row, and it stays under the idle
/// ceiling wherever the activation timeout itself does.
pub proof fn law_deadline_widens_under_the_ceiling(
    rows: u32,
    base: nat,
    factor: nat,
    ceiling: Option<u128>,
)
    requires
        base <= LONGEST_NANOS,
        factor >= 1,
    ensures
        deadline(rows, base, factor, ceiling) >= deadline(1, base, factor, ceiling),
        ceiling matches Some(c) ==> base < c ==> deadline(rows, base, factor, ceiling) < c,
{
    assert(base * factor >= base) by (nonlinear_arith)
        requires
            factor >= 1,
            base >= 0,
    ;
}

/// What happened to one worker's frame.
pub enum ReplyEvent {
    /// The frame could not be sent.
    SendFailed { reason: String },
    /// A result arrived with this shape.
    Result { data: Vec<u32>, rows: u32, k: u32, hidden: u32 },
    /// The worker answered with an error text.
    Rejected { reason: String },
    /// The result's body could not be read.
    BodyFailed { reason: String },
    /// Another kind of frame arrived.
    OtherFrame { kind: String },
    /// The connection closed before the result.
    Closed,
    /// The kind of the next frame could not be read.
    KindFailed { reason: String },
    /// Nothing arrived within the deadline.
    TimedOut,
}

/// Why a worker's frame failed.
pub enum ReplyError {
    Send { reason: String },
    Shape { rows: u32, k: u32, hidden: u32, values: usize },
    Rejected { reason: String },
    Body { reason: String },
    UnexpectedFrame { kind: String },
    Closed,
    Kind { reason: String },
    NoReply,
}

/// The slots per row of a reply: one partial sum in fused mode.
pub open spec fn reply_width(k: u32, fused: bool) -> u32 {
    if fused {
        1
    } else {
        k
    }
}

/// The outcome that an event stands for.
pub open spec fn reply_outcome(
    event: ReplyEvent,
    rows: u32,
    k: u32,
    hidden: u32,
    fused: bool,
) -> Result<Vec<u32>, ReplyError> {
    match event {
        ReplyEvent::SendFailed { reason } => Err(ReplyError::Send { reason }),
        ReplyEvent::Result { data, rows: got_rows, k: got_k, hidden: got_hidden } => {
            if got_rows == rows && got_k == reply_width(k, fused) && got_hidden == hidden
                && data.len() == rows * reply_width(k, fused) * hidden {
                Ok(data)
            } else {
                Err(
                    ReplyError::Shape {
                        rows: got_rows,
                        k: got_k,
                        hidden: got_hidden,
                        values: data.len(),
                    },
                )
            }
        },
        ReplyEvent::Rejected { reason } => Err(ReplyError::Rejected { reason }),
        ReplyEvent::BodyFailed { reason } => Err(ReplyError::Body { reason }),
        ReplyEvent::OtherFrame { kind } => Err(ReplyError::UnexpectedFrame { kind }),
        ReplyEvent::Closed => Err(ReplyError::Closed),
        ReplyEvent::KindFailed { reason } => Err(ReplyError::Kind { reason }),
        ReplyEvent::TimedOut => Err(ReplyError::NoReply),
    }
}

/// Decides what a worker's frame came to, and whether its connection must be
/// dropped: only after a timeout, where a late reply would be read as the next
/// frame's.
pub fn settle_reply(event: ReplyEvent, rows: u32, k: u32, hidden: u32, fused: bool) -> (r: (
    Result<Vec<u32>, ReplyError>,
    bool,
))
    ensures
        r.0 == reply_outcome(event, rows, k, hidden, fused),
        r.1 == (event is TimedOut),
{
    let width: u32 = if fused {
        1
    } else {
        k
    };
    match event {
        ReplyEvent::SendFailed { reason } => (Err(ReplyError::Send { reason }), false),
        ReplyEvent::Result { data, rows: got_rows, k: got_k, hidden: got_hidden } => {
            proof {
                assert(0 <= rows * width <= u32::MAX * u32::MAX) by (nonlinear_arith)
                    requires
                        0 <= rows <= u32::MAX,
                        0 <= width <= u32::MAX,
                ;
                let slots = rows * width;
                assert(0 <= slots * hidden <= u32::MAX * u32::MAX * u32::MAX) by (nonlinear_arith)
                    requires
                        0 <= slots <= u32::MAX * u32::MAX,
                        0 <= hidden <= u32::MAX,
                ;
            }
            let slots: u128 = rows as u128 * width as u128;
            let want: u128 = slots * hidden as u128;
            let values: usize = data.len();
            if got_rows != rows || got_k != width || got_hidden != hidden || values as u128 != want {
                (
                    Err(
                        ReplyError::Shape {
                            rows: got_rows,
                            k: got_k,
                            hidden: got_hidden,
                            values,
                        },
                    ),
                    false,
                )
            } else {
                (Ok(data), false)
            }
        },
        ReplyEvent::Rejected { reason } => (Err(ReplyError::Rejected { reason }), false),
        ReplyEvent::BodyFailed { reason } => (Err(ReplyError::Body { reason }), false),
        ReplyEvent::OtherFrame { kind } => (Err(ReplyError::UnexpectedFrame { kind }), false),
        ReplyEvent::Closed => (Err(ReplyError::Closed), false),
        ReplyEvent::KindFailed { reason } => (Err(ReplyError::Kind { reason }), false),
        ReplyEvent::TimedOut => (Err(ReplyError::NoReply), true),
    }
}

/// The failures among a frame's outcomes, in order.
pub open spec fn failures(outcomes: Seq<(usize, Result<Vec<u32>, ReplyError>)>) -> Seq<
    (usize, ReplyError),
>
    decreases outcomes.len(),
{
    if outcomes.len() == 0 {
        Seq::empty()
    } else {
        let rest = failures(outcomes.drop_last());
        match outcomes.last().1 {
            Ok(_) => rest,
            Err(e) => rest.push((outcomes.last().0, e)),
        }
    }
}

/// Gathers the replies of one frame by worker. One failure fails the frame, and
/// every failure is reported.
pub fn settle_frame(n_workers: usize, outcomes: Vec<(usize, Result<Vec<u32>, ReplyError>)>) -> (r:
    Result<Vec<Option<Vec<u32>>>, Vec<(usize, ReplyError)>>)
    requires
        forall|i: int| 0 <= i < outcomes.len() ==> (#[trigger] outcomes[i]).0 < n_workers,
        forall|i: int, j: int|
            0 <= i < j < outcomes.len() ==> (#[trigger] outcomes[i]).0 != (
            #[trigger] outcomes[j]).0,
    ensures
        match r {
            Err(errs) => errs@ == failures(outcomes@) && errs.len() > 0,
            Ok(data) => {
                &&& failures(outcomes@).len() == 0
                &&& data.len() == n_workers
                &&& forall|i: int| #![trigger outcomes[i]]
                    0 <= i < outcomes.len() ==> outcomes[i].1 is Ok
                        && data[outcomes[i].0 as int] == Some(outcomes[i].1->Ok_0)
                &&& forall|w: int| #![trigger data[w]]
                    0 <= w < n_workers && data[w] is Some ==> exists|i: int|
                        0 <= i < outcomes.len() && (#[trigger] outcomes[i]).0 == w
            },
        },
{
    let ghost given = outcomes@;
    let mut rest: Vec<(usize, Result<Vec<u32>, ReplyError>)> = outcomes;
    let mut data: Vec<Option<Vec<u32>>> = Vec::new();
    let mut w: usize = 0;
    while w < n_workers
        invariant
            w <= n_workers,
            data.len() == w,
            forall|x: int| 0 <= x < w ==> (#[trigger] data[x]) is None,
        decreases n_workers - w,
    {
        data.push(None);
        w += 1;
    }
    let mut errs_back: Vec<(usize, ReplyError)> = Vec::new();
    proof {
        assert(given.take(given.len() as int) =~= given);
    }
    // Taken from the back, so that each outcome moves once.
    while rest.len() > 0
        invariant
            data.len() == n_workers,
            rest.len() <= given.len(),
            rest@ == given.take(rest.len() as int),
            forall|i: int| 0 <= i < given.len() ==> (#[trigger] given[i]).0 < n_workers,
            forall|i: int, j: int|
                0 <= i < j < given.len() ==> (#[trigger] given[i]).0 != (#[trigger] given[j]).0,
            failures(given) == failures(rest@) + errs_back@.reverse(),
            forall|i: int| #![trigger given[i]]
                rest.len() <= i < given.len() && errs_back.len() == 0 ==> given[i].1 is Ok
                    && data[given[i].0 as int] == Some(given[i].1->Ok_0),
            forall|x: int| #![trigger data[x]]
                0 <= x < n_workers && data[x] is Some ==> exists|i: int|
                    rest.len() <= i < given.len() && (#[trigger] given[i]).0 == x,
        decreases rest.len(),
    {
        let ghost n = rest.len() as int;
        let ghost held = rest@;
        let ghost back = errs_back@;
        proof {
            assert(held.drop_last() =~= given.take(n - 1));
            assert(held.last() == given[n - 1]);
        }
        let (worker, outcome): (usize, Result<Vec<u32>, ReplyError>) = rest.pop().unwrap();
        match outcome {
            Ok(v) => {
                data.set(worker, Some(v));
                proof {
                    assert(given[n - 1].0 == worker);
                }
            },
            Err(e) => {
                errs_back.push((worker, e));
                proof {
                    assert(back.push((worker, e)).reverse() =~= seq![(worker, e)] + back.reverse());
                    assert(failures(held) == failures(held.drop_last()).push((worker, e)));
                    assert(failures(held) + back.reverse() =~= failures(held.drop_last())
                        + errs_back@.reverse());
                }
            },
        }
    }
    let mut errs: Vec<(usize, ReplyError)> = Vec::new();
    let ghost all = errs_back@;
    proof {
        assert(failures(Seq::<(usize, Result<Vec<u32>, ReplyError>)>::empty()) =~= Seq::empty());
        assert(rest@ =~= Seq::empty());
        assert(failures(given) =~= all.reverse());
    }
    if errs_back.len() == 0 {
        return Ok(data);
    }
    while errs_back.len() > 0
        invariant
            errs_back.len() <= all.len(),
            errs_back@ == all.take(errs_back.len() as int),
            errs@ == all.skip(errs_back.len() as int).reverse(),
        decreases errs_back.len(),
    {
        let ghost n = errs_back.len() as int;
        let ghost got = errs@;
        let e: (usize, ReplyError) = errs_back.pop().unwrap();
        errs.push(e);
        proof {
            assert(all.skip(n - 1) =~= seq![all[n - 1]] + all.skip(n));
            assert(all.skip(n - 1).reverse() =~= all.skip(n).reverse().push(all[n - 1]));
        }
    }
    proof {
        assert(all.skip(0) =~= all);
    }
    Err(errs)
}

// ------------------------------------------------- what the plans amount to

/// A number is finite where the eight bits of its exponent are not all set.
pub proof fn law_finite_by_exponent(bits: u32)
    ensures
        finite_bits(bits) <==> bits as int / 0x80_0000 % 256 != 255,
        finite_bits(bits) <==> bits < 0x7f80_0000 || 0x8000_0000 <= bits < 0xff80_0000,
{
}

/// A worker serves of a row just those entries whose expert lives on it, in the order
/// in which they were routed.
pub proof fn law_served_entries_are_those_at_home(list: Seq<Routed>, homes: Seq<usize>, w: int)
    ensures
        homed(list, homes, w) =~= list.filter(|x: Routed| homes[x.0 as int] == w),
    decreases list.len(),
{
    reveal(Seq::filter);
    if list.len() > 0 {
        law_served_entries_are_those_at_home(list.drop_last(), homes, w);
    }
}

/// A row is sent to a worker exactly where some entry of it lives there, and the rows
/// are sent in ascending order.
pub proof fn law_rows_are_sent_where_they_are_served(
    rows: Seq<Seq<Routed>>,
    homes: Seq<usize>,
    w: int,
    r: int,
)
    requires
        0 <= r < rows.len(),
    ensures
        active(rows, homes, w).contains(r) <==> exists|p: int|
            0 <= p < rows[r].len() && homes[(#[trigger] rows[r][p]).0 as int] == w,
        forall|i: int, j: int|
            0 <= i < j < active(rows, homes, w).len() ==> (#[trigger] active(rows, homes, w)[i]) < (
            #[trigger] active(rows, homes, w)[j]),
        forall|i: int|
            0 <= i < active(rows, homes, w).len() ==> 0 <= (#[trigger] active(rows, homes, w)[i])
                < rows.len(),
{
    lemma_active_lists(rows, homes, w);
    lemma_homed_nonempty(rows[r], homes, w);
}

proof fn lemma_homed_nonempty(list: Seq<Routed>, homes: Seq<usize>, w: int)
    ensures
        homed(list, homes, w).len() > 0 <==> exists|p: int|
            0 <= p < list.len() && homes[(#[trigger] list[p]).0 as int] == w,
    decreases list.len(),
{
    if list.len() > 0 {
        let d = list.drop_last();
        lemma_homed_nonempty(d, homes, w);
        if homed(d, homes, w).len() > 0 {
            let p = choose|p: int| 0 <= p < d.len() && homes[(#[trigger] d[p]).0 as int] == w;
            assert(list[p] == d[p]);
        }
        if exists|p: int| 0 <= p < list.len() && homes[(#[trigger] list[p]).0 as int] == w {
            let p = choose|p: int| 0 <= p < list.len() && homes[(#[trigger] list[p]).0 as int] == w;
            if p < d.len() {
                assert(d[p] == list[p]);
            }
        }
        assert(list.last() == list[list.len() - 1]);
    }
}

proof fn lemma_active_lists(rows: Seq<Seq<Routed>>, homes: Seq<usize>, w: int)
    ensures
        forall|r: int|
            #[trigger] active(rows, homes, w).contains(r) <==> 0 <= r < rows.len() && homed(
                rows[r],
                homes,
                w,
            ).len() > 0,
        forall|i: int, j: int|
            0 <= i < j < active(rows, homes, w).len() ==> (#[trigger] active(rows, homes, w)[i]) < (
            #[trigger] active(rows, homes, w)[j]),
        forall|i: int|
            0 <= i < active(rows, homes, w).len() ==> 0 <= (#[trigger] active(rows, homes, w)[i])
                < rows.len(),
    decreases rows.len(),
{
    if rows.len() > 0 {
        let d = rows.drop_last();
        let rest = active(d, homes, w);
        let all = active(rows, homes, w);
        lemma_active_lists(d, homes, w);
        let last = rows.len() - 1;
        assert forall|r: int| #[trigger] all.contains(r) <==> 0 <= r < rows.len() && homed(
            rows[r],
            homes,
            w,
        ).len() > 0 by {
            if all.contains(r) {
                let i = choose|i: int| 0 <= i < all.len() && all[i] == r;
                if i < rest.len() {
                    assert(rest[i] == r);
                    assert(rest.contains(r));
                }
            }
            if 0 <= r < last && homed(rows[r], homes, w).len() > 0 {
                assert(d[r] == rows[r]);
                assert(rest.contains(r));
                let i = choose|i: int| 0 <= i < rest.len() && rest[i] == r;
                assert(all[i] == r);
            }
            if r == last && homed(rows[r], homes, w).len() > 0 {
                assert(all[rest.len() as int] == r);
            }
        }
    }
}

/// A worker's share is as wide as its fullest row, and no wider.
pub proof fn law_share_is_as_wide_as_its_fullest_row(
    rows: Seq<Seq<Routed>>,
    homes: Seq<usize>,
    w: int,
)
    ensures
        forall|r: int|
            0 <= r < rows.len() ==> homed(#[trigger] rows[r], homes, w).len() <= width(rows, homes, w),
        width(rows, homes, w) > 0 ==> exists|r: int|
            0 <= r < rows.len() && homed(#[trigger] rows[r], homes, w).len() == width(
                rows,
                homes,
                w,
            ),
    decreases rows.len(),
{
    if rows.len() > 0 {
        let d = rows.drop_last();
        law_share_is_as_wide_as_its_fullest_row(d, homes, w);
        assert forall|r: int| 0 <= r < rows.len() implies homed(#[trigger] rows[r], homes, w).len()
            <= width(rows, homes, w) by {
            if r < d.len() {
                assert(d[r] == rows[r]);
            }
        }
        if homed(rows.last(), homes, w).len() > width(d, homes, w) {
            assert(rows[rows.len() - 1] == rows.last());
        } else if width(d, homes, w) > 0 {
            let r = choose|r: int|
                0 <= r < d.len() && homed(#[trigger] d[r], homes, w).len() == width(d, homes, w);
            assert(rows[r] == d[r]);
        }
    }
}

/// The widest row: none is wider, and some row is that wide.
pub proof fn law_widest_row(rows: Seq<Seq<Routed>>)
    ensures
        forall|r: int| 0 <= r < rows.len() ==> (#[trigger] rows[r]).len() <= widest(rows),
        rows.len() > 0 ==> exists|r: int|
            0 <= r < rows.len() && (#[trigger] rows[r]).len() == widest(rows),
        rows.len() == 0 ==> widest(rows) == 0,
    decreases rows.len(),
{
    if rows.len() > 0 {
        let d = rows.drop_last();
        law_widest_row(d);
        assert forall|r: int| 0 <= r < rows.len() implies (#[trigger] rows[r]).len() <= widest(
            rows,
        ) by {
            if r < d.len() {
                assert(d[r] == rows[r]);
            }
        }
        if rows.last().len() > widest(d) || d.len() == 0 {
            assert(rows[rows.len() - 1] == rows.last());
        } else {
            let r = choose|r: int| 0 <= r < d.len() && (#[trigger] d[r]).len() == widest(d);
            assert(rows[r] == d[r]);
        }
    }
}

/// A frame is as large as the wire allows: it reaches the batch limit, or one row more
/// would exceed the tensor limit. It holds a row wherever the batch limit does.
pub proof fn law_frames_are_as_large_as_they_may_be(limits: WireLimits, k: nat, h: nat)
    requires
        k > 0,
        h > 0,
    ensures
        frame_rows(limits, k, h) == limits.max_batch || (frame_rows(limits, k, h) + 1) * (4 * (k
            * h)) > limits.max_tensor_bytes,
        limits.max_batch > 0 ==> frame_rows(limits, k, h) > 0,
{
    let row = k * h * 4;
    assert(row > 0 && row == 4 * (k * h)) by (nonlinear_arith)
        requires
            k > 0,
            h > 0,
            row == k * h * 4,
    ;
    let fit = limits.max_tensor_bytes as nat / row;
    let n = frame_rows(limits, k, h);
    vstd::arithmetic::div_mod::lemma_fundamental_div_mod(
        limits.max_tensor_bytes as int,
        row as int,
    );
    if n != limits.max_batch {
        assert((n + 1) * row >= (fit + 1) * row) by (nonlinear_arith)
            requires
                n >= fit,
        ;
        assert((fit + 1) * row == row * fit + row) by (nonlinear_arith);
    }
}

/// The frames lie end to end over all rows, each of exactly `chunk` rows but the last.
pub proof fn law_frames_are_full_but_the_last(
    frames: Seq<(usize, usize)>,
    chunk: int,
    t: int,
    i: int,
)
    requires
        chunk > 0,
        frames_cover(frames, chunk, t, t),
        (frames.len() - 1) * chunk < t,
        0 <= i < frames.len(),
    ensures
        frames[0].0 == 0,
        frames.last().1 == t,
        i + 1 < frames.len() ==> frames[i].1 - frames[i].0 == chunk && frames[i + 1].0
            == frames[i].1,
        i + 1 == frames.len() ==> 0 < frames[i].1 - frames[i].0 <= chunk,
{
    let last = frames.len() - 1;
    assert((last + 1) * chunk == last * chunk + chunk) by (nonlinear_arith);
    assert((i + 1) * chunk == i * chunk + chunk) by (nonlinear_arith);
    assert(0 * chunk == 0);
    assert((frames[0].0 as int, frames[0].1 as int) == frame_at(0, chunk, t));
    assert((frames[last].0 as int, frames[last].1 as int) == frame_at(last, chunk, t));
    assert((frames[i].0 as int, frames[i].1 as int) == frame_at(i, chunk, t));
    if i < last {
        assert((i + 1) * chunk <= last * chunk) by (nonlinear_arith)
            requires
                i + 1 <= last,
                chunk > 0,
        ;
        assert((frames[i + 1].0 as int, frames[i + 1].1 as int) == frame_at(i + 1, chunk, t));
    }
}

/// One row gets the base time. A batch gets the base time multiplied, but no more than
/// what ends five seconds before the idle ceiling, and never less than the base.
pub proof fn law_deadline_of_a_batch(rows: u32, base: nat, factor: nat, ceiling: Option<u128>)
    requires
        base <= 18_446_744_073_709_551_615_999_999_999,
        factor >= 1,
    ensures
        rows <= 1 ==> deadline(rows, base, factor, ceiling) == base,
        rows > 1 ==> {
            let d = deadline(rows, base, factor, ceiling);
            &&& base <= d <= base * factor
            &&& d <= 18_446_744_073_709_551_615_999_999_999
            &&& ceiling matches Some(c) ==> d == base || d + 5_000_000_000 <= c
            // As much as these bounds leave.
            &&& d == base * factor || d == 18_446_744_073_709_551_615_999_999_999 || (
            ceiling matches Some(c) && (d + 5_000_000_000 == c || (d == base && c <= base
                + 5_000_000_000)))
        },
{
    assert(base * factor >= base) by (nonlinear_arith)
        requires
            factor >= 1,
            base >= 0,
    ;
}

/// Slots beyond the served entries hold the padding id and weight zero.
pub proof fn law_padding_has_no_weight(served: Seq<Routed>, j: int, pad: i32)
    requires
        0 <= j,
        forall|p: int| 0 <= p < served.len() ==> (#[trigger] served[p]).0 <= i32::MAX,
    ensures
        j < served.len() ==> slot_entry(served, j, pad).0 == served[j].0 && slot_entry(
            served,
            j,
            pad,
        ).1 == served[j].1,
        j >= served.len() ==> slot_entry(served, j, pad) == (pad, 0u32),
{
}

/// Cells stand row by row.
pub proof fn law_cells_stand_row_by_row(s: Seq<u32>, c: int, k: int, j: int)
    ensures
        cell(s, c, k, j) == s[c * k + j],
        cell(s, c + 1, k, j) == cell(s, c, k, j + k),
{
    assert((c + 1) * k + j == c * k + (j + k)) by (nonlinear_arith);
}

/// The first entry out of range: every one before it is in range.
pub proof fn law_first_entry_out_of_range(list: Seq<Routed>, n_ids: int)
    ensures
        ({
            let at = first_out_of_range(list, n_ids);
            &&& 0 <= at <= list.len()
            &&& at < list.len() ==> list[at].0 >= n_ids
            &&& forall|p: int| 0 <= p < at ==> (#[trigger] list[p]).0 < n_ids
        }),
    decreases list.len(),
{
    if list.len() > 0 {
        let d = list.drop_last();
        law_first_entry_out_of_range(d, n_ids);
        let at = first_out_of_range(list, n_ids);
        assert forall|p: int| 0 <= p < at implies (#[trigger] list[p]).0 < n_ids by {
            if p < d.len() {
                assert(d[p] == list[p]);
            }
        }
        if at < d.len() {
            assert(d[at] == list[at]);
        }
    }
}

/// A row is refused for a weight that is not finite, else for an expert named twice
/// where replies are summed, else for the first id out of range; otherwise it is sound.
pub proof fn law_faults_of_a_row(list: Seq<Routed>, row: usize, fused: bool, n_ids: int)
    ensures
        (exists|p: int|
            0 <= p < list.len() && (#[trigger] list[p]).1 as int / 0x80_0000 % 256 == 255)
            <==> row_fault(list, row, fused, n_ids) == Some(DispatchError::NonFiniteWeight { row }),
        row_fault(list, row, fused, n_ids) == Some(DispatchError::DuplicateExpert { row }) ==> fused
            && exists|i: int, j: int|
            0 <= i < j < list.len() && (#[trigger] list[i]).0 == (#[trigger] list[j]).0,
        row_fault(list, row, fused, n_ids) is None ==> forall|p: int|
            0 <= p < list.len() ==> (#[trigger] list[p]).0 < n_ids,
        row_fault(list, row, fused, n_ids) is None && fused ==> forall|i: int, j: int|
            0 <= i < j < list.len() ==> (#[trigger] list[i]).0 != (#[trigger] list[j]).0,
        forall|at: int|
            0 <= at < list.len() && row_fault(list, row, fused, n_ids) is None ==> finite_bits(
                (#[trigger] list[at]).1,
            ),
{
    law_first_entry_out_of_range(list, n_ids);
    if has_non_finite(list) {
        let p = choose|p: int| 0 <= p < list.len() && !finite_bits((#[trigger] list[p]).1);
        law_finite_by_exponent(list[p].1);
        assert(list[p].1 as int / 0x80_0000 % 256 == 255);
    }
    if exists|p: int| 0 <= p < list.len() && (#[trigger] list[p]).1 as int / 0x80_0000 % 256 == 255 {
        let p = choose|p: int|
            0 <= p < list.len() && (#[trigger] list[p]).1 as int / 0x80_0000 % 256 == 255;
        law_finite_by_exponent(list[p].1);
        assert(!finite_bits(list[p].1));
    }
}

/// The fault of a batch is that of its first faulty row.
pub proof fn law_first_faulty_row_decides(
    rows: Seq<Seq<Routed>>,
    fused: bool,
    n_ids: int,
    r: int,
)
    requires
        0 <= r < rows.len(),
        rows.len() <= usize::MAX,
    ensures
        rows_fault(rows, fused, n_ids) is None ==> row_fault(rows[r], r as usize, fused, n_ids)
            is None,
        row_fault(rows[r], r as usize, fused, n_ids) is Some && (forall|x: int|
            0 <= x < r ==> row_fault(#[trigger] rows[x], x as usize, fused, n_ids) is None)
            ==> rows_fault(rows, fused, n_ids) == row_fault(rows[r], r as usize, fused, n_ids),
        (forall|x: int|
            0 <= x < rows.len() ==> row_fault(#[trigger] rows[x], x as usize, fused, n_ids) is None)
            ==> rows_fault(rows, fused, n_ids) is None,
    decreases rows.len(),
{
    let d = rows.drop_last();
    assert forall|x: int| 0 <= x < d.len() implies #[trigger] d[x] == rows[x] by {}
    if r < d.len() {
        law_first_faulty_row_decides(d, fused, n_ids, r);
        if forall|x: int|
            0 <= x < rows.len() ==> row_fault(#[trigger] rows[x], x as usize, fused, n_ids)
                is None {
            assert forall|x: int| 0 <= x < d.len() implies row_fault(
                #[trigger] d[x],
                x as usize,
                fused,
                n_ids,
            ) is None by {
                assert(row_fault(rows[x], x as usize, fused, n_ids) is None);
            }
            assert(row_fault(rows[rows.len() - 1], (rows.len() - 1) as usize, fused, n_ids)
                is None);
        }
        if forall|x: int|
            0 <= x < r ==> row_fault(#[trigger] rows[x], x as usize, fused, n_ids) is None {
            assert forall|x: int| 0 <= x < r implies row_fault(
                #[trigger] d[x],
                x as usize,
                fused,
                n_ids,
            ) is None by {
                assert(row_fault(rows[x], x as usize, fused, n_ids) is None);
            }
        }
    } else {
        if forall|x: int|
            0 <= x < r ==> row_fault(#[trigger] rows[x], x as usize, fused, n_ids) is None {
            if d.len() > 0 {
                assert forall|x: int| 0 <= x < d.len() implies row_fault(
                    #[trigger] d[x],
                    x as usize,
                    fused,
                    n_ids,
                ) is None by {
                    assert(row_fault(rows[x], x as usize, fused, n_ids) is None);
                }
                law_first_faulty_row_decides(d, fused, n_ids, 0);
            }
        }
    }
}

/// Only a result of the asked shape is taken, with one value for each output of each
/// row: one output for a row where they are summed, else one for each slot.
pub proof fn law_only_the_asked_shape_is_taken(
    event: ReplyEvent,
    rows: u32,
    k: u32,
    hidden: u32,
    fused: bool,
)
    ensures
        reply_outcome(event, rows, k, hidden, fused) matches Ok(data) ==> {
            let outputs: u32 = if fused {
                1
            } else {
                k
            };
            &&& event == (ReplyEvent::Result { data, rows, k: outputs, hidden })
            &&& data.len() == rows * outputs * hidden
        },
        event matches ReplyEvent::Result { data, rows: r, k: n, hidden: h } ==> r == rows && h
            == hidden && (fused && n == 1 || !fused && n == k) && data.len() == r * n * h
            ==> reply_outcome(event, rows, k, hidden, fused) == Ok::<Vec<u32>, ReplyError>(data),
{
}

/// What failed is told, each with its worker, in the order of the outcomes, and
/// nothing else.
pub proof fn law_every_failure_is_told(
    outcomes: Seq<(usize, Result<Vec<u32>, ReplyError>)>,
    x: (usize, ReplyError),
)
    ensures
        failures(outcomes).contains(x) <==> exists|i: int|
            0 <= i < outcomes.len() && (#[trigger] outcomes[i]).0 == x.0 && outcomes[i].1 == Err::<
                Vec<u32>,
                ReplyError,
            >(x.1),
        failures(outcomes).len() <= outcomes.len(),
    decreases outcomes.len(),
{
    if outcomes.len() > 0 {
        let d = outcomes.drop_last();
        let rest = failures(d);
        let all = failures(outcomes);
        law_every_failure_is_told(d, x);
        assert forall|i: int| 0 <= i < d.len() implies #[trigger] d[i] == outcomes[i] by {}
        let last = outcomes.len() - 1;
        assert(outcomes.last() == outcomes[last]);
        if rest.contains(x) {
            let i = choose|i: int| 0 <= i < rest.len() && rest[i] == x;
            assert(all[i] == x);
            let j = choose|j: int|
                0 <= j < d.len() && (#[trigger] d[j]).0 == x.0 && d[j].1 == Err::<
                    Vec<u32>,
                    ReplyError,
                >(x.1);
            assert(outcomes[j] == d[j]);
        }
        if all.contains(x) {
            let i = choose|i: int| 0 <= i < all.len() && all[i] == x;
            if i < rest.len() {
                assert(rest[i] == x);
                assert(rest.contains(x));
            } else {
                assert(outcomes[last].0 == x.0);
            }
        }
        if exists|i: int|
            0 <= i < outcomes.len() && (#[trigger] outcomes[i]).0 == x.0 && outcomes[i].1 == Err::<
                Vec<u32>,
                ReplyError,
            >(x.1) {
            let i = choose|i: int|
                0 <= i < outcomes.len() && (#[trigger] outcomes[i]).0 == x.0 && outcomes[i].1
                    == Err::<Vec<u32>, ReplyError>(x.1);
            if i < last {
                assert(d[i] == outcomes[i]);
                assert(rest.contains(x));
            } else {
                assert(all[rest.len() as int] == x);
            }
        }
    }
}

/// What is read for a routed entry is the output of the worker that its expert lives on,
/// at a slot that names that expert.
pub proof fn law_reads_lead_to_their_outputs(
    reads: Seq<(usize, usize)>,
    chunk: ChunkPlan,
    hidden_rows: Seq<u32>,
    rows: Seq<Seq<Routed>>,
    homes: Seq<usize>,
    n_ids: int,
    n_workers: int,
    h: int,
    pad: i32,
    r: int,
    p: int,
)
    requires
        n_ids <= i32::MAX,
        routable(rows, homes, n_ids, n_workers),
        chunk_plan_for(chunk, hidden_rows, rows, homes, n_workers, h, pad),
        0 <= r < rows.len(),
        0 <= p < rows[r].len(),
        reads_row(reads, rows, homes, r, rows[r].len() as int),
    ensures
        reads.len() == rows[r].len(),
        ({
            let (w, s) = reads[p];
            &&& w == homes[rows[r][p].0 as int]
            &&& chunk.shares[w as int] is Some
            &&& {
                let plan = chunk.shares[w as int]->0;
                &&& s < plan.ids.len()
                &&& plan.ids[s as int] == rows[r][p].0
                &&& plan.weights[s as int] == rows[r][p].1
            }
        }),
{
    law_gate_slot_carries_its_entry(
        chunk,
        hidden_rows,
        rows,
        homes,
        n_ids,
        n_workers,
        h,
        pad,
        r,
        p,
    );
    assert(reads[p].0 == homes[rows[r][p].0 as int]);
}

/// A worker's share holds for each row that it serves the row's values, its entries and
/// padding behind them, all rows equally wide.
pub proof fn law_a_share_holds_its_rows(
    plan: WorkerPlan,
    hidden_rows: Seq<u32>,
    rows: Seq<Seq<Routed>>,
    homes: Seq<usize>,
    w: int,
    h: int,
    pad: i32,
    c: int,
    i: int,
)
    requires
        plan_for(plan, hidden_rows, rows, homes, w, h, pad),
        0 <= c < active(rows, homes, w).len(),
        0 <= i < h,
    ensures
        plan.worker == w,
        plan.rows == active(rows, homes, w).len(),
        plan.ids.len() == plan.rows * plan.k,
        plan.weights.len() == plan.rows * plan.k,
        plan.hidden_rows.len() == plan.rows * h,
        plan.hidden_rows@[c * h + i] == hidden_rows[active(rows, homes, w)[c] * h + i],
{
    assert(cell(plan.hidden_rows@, c, h, i) == cell(hidden_rows, active(rows, homes, w)[c], h, i));
}

/// Each row is mapped to its place among the rows that a worker serves, and to none where
/// the worker serves nothing of it.
pub proof fn law_row_maps_of_a_chunk(
    chunk: ChunkPlan,
    hidden_rows: Seq<u32>,
    rows: Seq<Seq<Routed>>,
    homes: Seq<usize>,
    n_workers: int,
    h: int,
    pad: i32,
    w: int,
    r: int,
)
    requires
        chunk_plan_for(chunk, hidden_rows, rows, homes, n_workers, h, pad),
        0 <= w < n_workers,
        0 <= r < rows.len(),
    ensures
        chunk.row_map.len() == n_workers && chunk.shares.len() == n_workers,
        chunk.row_map[w].len() == rows.len(),
        homed(rows[r], homes, w).len() == 0 ==> chunk.row_map[w][r] is None,
        homed(rows[r], homes, w).len() > 0 ==> (chunk.row_map[w][r] matches Some(c) && c
            == active(rows.take(r), homes, w).len()),
        chunk.shares[w] is Some <==> width(rows, homes, w) > 0,
{
    let map = chunk.row_map[w];
    assert(row_map_for(map@, rows, homes, w));
    assert(map@[r] == map[r]);
}

} // verus!
