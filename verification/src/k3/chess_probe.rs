//! Measures how much of an expert's up section lane sparsity could skip.
//!
//! A lane whose gate value is negligible contributes nothing, but what is read is
//! whole pages: the probe counts dead lanes, and the pages that no live lane
//! touches.
use vstd::prelude::*;

use super::expert_fp4::{self, section_bytes, GROUP};
use crate::arith::{self, div_up};
use crate::float_bits::{self, magnitude_of, INFINITY};
use crate::text::same_text;

verus! {

/// Bytes of a page.
pub const PAGE: usize = 4096;

/// The single-precision bits of the thresholds 0, 0.001, 0.01 and 0.1.
pub fn thresholds() -> (t: [u32; 4])
    ensures
        t[0] == 0,
        t[1] == 0x3a83_126f,
        t[2] == 0x3c23_d70a,
        t[3] == 0x3dcc_cccd,
{
    [0, 0x3a83_126f, 0x3c23_d70a, 0x3dcc_cccd]
}

/// The probe's counters.
pub struct ChessProbe {
    pub enabled: bool,
    pub dead_lanes: [u64; 4],
    pub dead_pages: [u64; 4],
    pub total_lanes: u64,
    pub total_pages: u64,
}

impl ChessProbe {
    pub fn new(enabled: bool) -> (p: ChessProbe)
        ensures
            p.enabled == enabled,
            p.dead_lanes@ =~= seq![0u64, 0, 0, 0],
            p.dead_pages@ =~= seq![0u64, 0, 0, 0],
            p.total_lanes == 0,
            p.total_pages == 0,
    {
        ChessProbe {
            enabled,
            dead_lanes: [0, 0, 0, 0],
            dead_pages: [0, 0, 0, 0],
            total_lanes: 0,
            total_pages: 0,
        }
    }
}

/// Only the setting `1` turns the probe on.
pub fn enabled_by(setting: Option<&str>) -> (b: bool)
    ensures
        b == (setting matches Some(s) && s@ == "1"@),
{
    match setting {
        None => false,
        Some(s) => same_text(s, "1"),
    }
}

/// Whether the probe is on.
pub fn enabled(p: &ChessProbe) -> (b: bool)
    ensures
        b == p.enabled,
{
    p.enabled
}

/// The byte ranges of the section that one lane alone owns: start and length of its
/// nibbles and of its exponents.
pub fn lane_ranges(lane: usize, inter: usize, latent: usize) -> (r: [(usize, usize); 2])
    requires
        lane < inter,
        inter * latent <= usize::MAX,
    ensures
        ({
            let ((n0, nl), (s0, sl)) = expert_fp4::row_parts(
                lane as int,
                inter as int,
                latent as int,
            );
            &&& r[0].0 == n0
            &&& r[0].1 == nl
            &&& r[1].0 == s0
            &&& r[1].1 == sl
        }),
{
    proof {
        expert_fp4::lemma_section(inter as int, latent as int);
        expert_fp4::lemma_row_parts(lane as int, inter as int, latent as int);
    }
    let nib_bytes: usize = inter * latent / 2;
    [
        (lane * (latent / 2), latent / 2),
        (nib_bytes + lane * (latent / GROUP), latent / GROUP),
    ]
}

/// Byte `at` lies in the range.
pub open spec fn holds(range: (int, int), at: int) -> bool {
    range.0 <= at < range.0 + range.1
}

/// Byte `at` of the section belongs to lane `lane`.
pub open spec fn lane_owns(lane: int, inter: int, latent: int, at: int) -> bool {
    let parts = expert_fp4::row_parts(lane, inter, latent);
    holds(parts.0, at) || holds(parts.1, at)
}

/// Byte `at` of the section belongs to some lane.
pub open spec fn has_lane(inter: int, latent: int, at: int) -> bool {
    exists|lane: int| 0 <= lane < inter && #[trigger] lane_owns(lane, inter, latent, at)
}

/// The lanes split the section: every byte of it belongs to exactly one lane, there to
/// either its nibbles or its exponents, and no lane owns a byte beyond the section.
pub proof fn law_lanes_split_the_section(inter: int, latent: int)
    requires
        0 <= inter,
        0 <= latent,
        latent % 32 == 0,
    ensures
        forall|at: int|
            0 <= at < expert_fp4::section_size(inter, latent) ==> #[trigger] has_lane(
                inter,
                latent,
                at,
            ),
        forall|lane: int, at: int|
            0 <= lane < inter && #[trigger] lane_owns(lane, inter, latent, at) ==> 0 <= at
                < expert_fp4::section_size(inter, latent),
        forall|a: int, b: int, at: int|
            0 <= a < inter && 0 <= b < inter && #[trigger] lane_owns(a, inter, latent, at)
                && #[trigger] lane_owns(b, inter, latent, at) ==> a == b,
        forall|lane: int, at: int|
            0 <= lane < inter && #[trigger] lane_owns(lane, inter, latent, at) ==> holds(
                expert_fp4::row_parts(lane, inter, latent).0,
                at,
            ) != holds(expert_fp4::row_parts(lane, inter, latent).1, at),
{
    let h = latent / 2;
    let g = latent / 32;
    assert(inter * latent == 2 * (inter * h)) by (nonlinear_arith)
        requires
            latent == 2 * h,
    ;
    let split = inter * h;
    assert(inter * latent / 2 == split);
    assert forall|at: int|
        0 <= at < expert_fp4::section_size(inter, latent) implies #[trigger] has_lane(
        inter,
        latent,
        at,
    ) by {
        if at < split {
            lemma_unit_of(at, h, inter);
            assert(lane_owns(at / h, inter, latent, at));
        } else {
            lemma_unit_of(at - split, g, inter);
            assert(lane_owns((at - split) / g, inter, latent, at));
        }
    }
    assert forall|lane: int, at: int|
        0 <= lane < inter && #[trigger] lane_owns(lane, inter, latent, at) implies 0 <= at
        < expert_fp4::section_size(inter, latent) by {
        expert_fp4::lemma_row_parts(lane, inter, latent);
        expert_fp4::lemma_section(inter, latent);
    }
    assert forall|a: int, b: int, at: int|
        0 <= a < inter && 0 <= b < inter && #[trigger] lane_owns(a, inter, latent, at)
            && #[trigger] lane_owns(b, inter, latent, at) implies a == b by {
        expert_fp4::lemma_row_parts(a, inter, latent);
        expert_fp4::lemma_row_parts(b, inter, latent);
        if at < split {
            lemma_one_unit(at, h, a, b);
        } else {
            lemma_one_unit(at - split, g, a, b);
        }
    }
    assert forall|lane: int, at: int|
        0 <= lane < inter && #[trigger] lane_owns(lane, inter, latent, at) implies holds(
        expert_fp4::row_parts(lane, inter, latent).0,
        at,
    ) != holds(expert_fp4::row_parts(lane, inter, latent).1, at) by {
        expert_fp4::lemma_row_parts(lane, inter, latent);
    }
}

proof fn lemma_unit_of(at: int, unit: int, n: int)
    requires
        0 <= at < n * unit,
        0 <= unit,
        0 <= n,
    ensures
        0 <= at / unit < n,
        (at / unit) * unit <= at < (at / unit) * unit + unit,
{
    assert(unit > 0) by (nonlinear_arith)
        requires
            0 <= at < n * unit,
            0 <= unit,
    ;
    vstd::arithmetic::div_mod::lemma_fundamental_div_mod(at, unit);
    vstd::arithmetic::div_mod::lemma_div_pos_is_pos(at, unit);
    let q = at / unit;
    assert(q * unit == unit * q) by (nonlinear_arith);
    assert(q < n) by (nonlinear_arith)
        requires
            q * unit <= at,
            at < n * unit,
            unit > 0,
    ;
}

proof fn lemma_one_unit(at: int, unit: int, a: int, b: int)
    requires
        a * unit <= at < a * unit + unit,
        b * unit <= at < b * unit + unit,
    ensures
        a == b,
{
    assert(a == b) by (nonlinear_arith)
        requires
            a * unit <= at < a * unit + unit,
            b * unit <= at < b * unit + unit,
    ;
}

/// Page `page` holds a byte of the range.
pub open spec fn covers(range: (int, int), page: int) -> bool {
    range.1 > 0 && range.0 / 4096 <= page <= (range.0 + range.1 - 1) / 4096
}

/// Lane `lane` touches page `page`.
pub open spec fn lane_touches(lane: int, inter: int, latent: int, page: int) -> bool {
    let parts = expert_fp4::row_parts(lane, inter, latent);
    covers(parts.0, page) || covers(parts.1, page)
}

/// Some live lane among the first `n` touches the page.
pub open spec fn page_touched(dead: Seq<bool>, n: int, inter: int, latent: int, page: int) -> bool {
    exists|lane: int| 0 <= lane < n && !dead[lane] && #[trigger] lane_touches(lane, inter, latent, page)
}

/// How many of the first `pages` pages no live lane touches.
pub open spec fn clear_pages(dead: Seq<bool>, inter: int, latent: int, pages: nat) -> nat
    decreases pages,
{
    if pages == 0 {
        0
    } else {
        clear_pages(dead, inter, latent, (pages - 1) as nat) + if page_touched(
            dead,
            dead.len() as int,
            inter,
            latent,
            pages - 1,
        ) {
            0nat
        } else {
            1
        }
    }
}

/// Pages of the section.
pub open spec fn section_pages(inter: int, latent: int) -> int {
    arith::ceil_div(expert_fp4::section_size(inter, latent), 4096)
}

fn mark(touched: &mut Vec<bool>, start: usize, len: usize)
    requires
        start + len <= 4096 * old(touched).len(),
        start + len <= usize::MAX,
    ensures
        final(touched).len() == old(touched).len(),
        forall|p: int|
            0 <= p < old(touched).len() ==> #[trigger] final(touched)[p] == (old(touched)[p] || covers(
                (start as int, len as int),
                p,
            )),
{
    if len == 0 {
        return;
    }
    let first: usize = start / PAGE;
    let last: usize = (start + (len - 1)) / PAGE;
    let mut t: usize = first;
    while t <= last
        invariant
            first == start / 4096,
            last == (start + len - 1) / 4096,
            len > 0,
            last < touched.len(),
            first <= t <= last + 1,
            touched.len() == old(touched).len(),
            forall|p: int|
                0 <= p < touched.len() ==> #[trigger] touched[p] == (old(touched)[p] || (first <= p
                    < t)),
        decreases last + 1 - t,
    {
        touched.set(t, true);
        t += 1;
    }
}

/// Pages of the section that no live lane touches, and all of them.
pub fn dead_pages(dead: &[bool], inter: usize, latent: usize) -> (r: (u64, u64))
    requires
        dead.len() <= inter,
        inter * latent <= usize::MAX,
    ensures
        r.0 == clear_pages(
            dead@,
            inter as int,
            latent as int,
            section_pages(inter as int, latent as int) as nat,
        ),
        r.1 == section_pages(inter as int, latent as int),
        r.0 <= r.1,
{
    proof {
        expert_fp4::lemma_section(inter as int, latent as int);
    }
    let size: usize = section_bytes(inter, latent);
    let total: usize = div_up(size, PAGE);
    let mut touched: Vec<bool> = vec![false; total];
    let mut lane: usize = 0;
    while lane < dead.len()
        invariant
            dead.len() <= inter,
            inter * latent <= usize::MAX,
            size == expert_fp4::section_size(inter as int, latent as int),
            total == arith::ceil_div(size as int, 4096),
            touched.len() == total,
            lane <= dead.len(),
            forall|p: int|
                0 <= p < total ==> #[trigger] touched[p] == page_touched(
                    dead@,
                    lane as int,
                    inter as int,
                    latent as int,
                    p,
                ),
        decreases dead.len() - lane,
    {
        let ghost before = touched@;
        if !dead[lane] {
            let r: [(usize, usize); 2] = lane_ranges(lane, inter, latent);
            proof {
                expert_fp4::lemma_section(inter as int, latent as int);
                expert_fp4::lemma_row_parts(lane as int, inter as int, latent as int);
            }
            mark(&mut touched, r[0].0, r[0].1);
            mark(&mut touched, r[1].0, r[1].1);
        }
        proof {
            assert forall|p: int| 0 <= p < total implies #[trigger] touched[p] == page_touched(
                dead@,
                lane + 1,
                inter as int,
                latent as int,
                p,
            ) by {
                let was = page_touched(dead@, lane as int, inter as int, latent as int, p);
                assert(before[p] == was);
                if was {
                    let l = choose|l: int|
                        0 <= l < lane && !dead@[l] && #[trigger] lane_touches(
                            l,
                            inter as int,
                            latent as int,
                            p,
                        );
                    assert(lane_touches(l, inter as int, latent as int, p));
                }
                if !dead@[lane as int] && lane_touches(
                    lane as int,
                    inter as int,
                    latent as int,
                    p,
                ) {
                    assert(page_touched(dead@, lane + 1, inter as int, latent as int, p));
                }
                if page_touched(dead@, lane + 1, inter as int, latent as int, p) && !was {
                    let l = choose|l: int|
                        0 <= l < lane + 1 && !dead@[l] && #[trigger] lane_touches(
                            l,
                            inter as int,
                            latent as int,
                            p,
                        );
                    assert(l == lane);
                }
            }
        }
        lane += 1;
    }
    let mut n: u64 = 0;
    let mut p: usize = 0;
    while p < total
        invariant
            p <= total,
            touched.len() == total,
            n <= p,
            n == clear_pages(dead@, inter as int, latent as int, p as nat),
            forall|x: int|
                0 <= x < total ==> #[trigger] touched[x] == page_touched(
                    dead@,
                    dead.len() as int,
                    inter as int,
                    latent as int,
                    x,
                ),
        decreases total - p,
    {
        if !touched[p] {
            n = n + 1;
        }
        p += 1;
    }
    (n, total as u64)
}

/// A lane is dead at a threshold where its magnitude does not exceed it.
pub open spec fn lane_dead(g: u32, t: u32) -> bool {
    !float_bits::nan(g) && float_bits::magnitude(g) <= t
}

/// The dead lanes at a threshold.
pub fn dead_mask(g: &[u32], t: u32) -> (m: Vec<bool>)
    requires
        t <= INFINITY,
    ensures
        m.len() == g.len(),
        forall|i: int| 0 <= i < m.len() ==> #[trigger] m[i] == lane_dead(g[i], t),
{
    let mut m: Vec<bool> = Vec::new();
    let mut i: usize = 0;
    while i < g.len()
        invariant
            i <= g.len(),
            t <= INFINITY,
            m.len() == i,
            forall|x: int| 0 <= x < i ==> #[trigger] m[x] == lane_dead(g[x], t),
        decreases g.len() - i,
    {
        m.push(magnitude_of(g[i]) <= t);
        i += 1;
    }
    m
}

/// How many lanes are dead at a threshold.
pub open spec fn dead_count(g: Seq<u32>, t: u32) -> nat
    decreases g.len(),
{
    if g.len() == 0 {
        0
    } else {
        dead_count(g.drop_last(), t) + if lane_dead(g.last(), t) {
            1nat
        } else {
            0
        }
    }
}

/// The mask of dead lanes.
pub open spec fn mask_of(g: Seq<u32>, t: u32) -> Seq<bool> {
    Seq::new(g.len(), |i: int| lane_dead(g[i], t))
}

fn count_dead(m: &Vec<bool>, Ghost(g): Ghost<Seq<u32>>, t: u32) -> (n: u64)
    requires
        m@ == mask_of(g, t),
    ensures
        n == dead_count(g, t),
        n <= g.len(),
{
    let mut n: u64 = 0;
    let mut i: usize = 0;
    while i < m.len()
        invariant
            i <= m.len(),
            m@ == mask_of(g, t),
            n <= i,
            n == dead_count(g.take(i as int), t),
        decreases m.len() - i,
    {
        proof {
            assert(g.take(i + 1).drop_last() =~= g.take(i as int));
            assert(m@[i as int] == lane_dead(g[i as int], t));
        }
        if m[i] {
            n = n + 1;
        }
        i += 1;
    }
    proof {
        assert(g.take(g.len() as int) =~= g);
    }
    n
}

/// The threshold of a level.
pub open spec fn threshold(i: int) -> u32 {
    if i == 0 {
        0
    } else if i == 1 {
        0x3a83_126f
    } else if i == 2 {
        0x3c23_d70a
    } else {
        0x3dcc_cccd
    }
}

/// Records one expert's gate values. Nothing where the probe is off or there is not
/// one value per lane.
pub fn observe(p: &mut ChessProbe, g: &[u32], inter: usize, latent: usize)
    requires
        inter * latent <= usize::MAX,
    ensures
        final(p).enabled == old(p).enabled,
        !old(p).enabled || g.len() != inter ==> *final(p) == *old(p),
        old(p).enabled && g.len() == inter ==> {
            &&& final(p).total_lanes == old(p).total_lanes.wrapping_add(inter as u64)
            &&& final(p).total_pages == old(p).total_pages.wrapping_add(
                section_pages(inter as int, latent as int) as u64,
            )
            &&& forall|i: int|
                0 <= i < 4 ==> #[trigger] final(p).dead_lanes@[i] == old(p).dead_lanes@[i].wrapping_add(
                    dead_count(g@, threshold(i)) as u64,
                )
            &&& forall|i: int|
                0 <= i < 4 ==> #[trigger] final(p).dead_pages@[i] == old(p).dead_pages@[i].wrapping_add(
                    clear_pages(
                        mask_of(g@, threshold(i)),
                        inter as int,
                        latent as int,
                        section_pages(inter as int, latent as int) as nat,
                    ) as u64,
                )
        },
{
    if !p.enabled || g.len() != inter {
        return;
    }
    let levels: [u32; 4] = thresholds();
    let mut i: usize = 0;
    while i < 4
        invariant
            i <= 4,
            inter * latent <= usize::MAX,
            g.len() == inter,
            p.enabled == old(p).enabled,
            p.total_lanes == old(p).total_lanes,
            levels[0] == threshold(0),
            levels[1] == threshold(1),
            levels[2] == threshold(2),
            levels[3] == threshold(3),
            p.total_pages == if i == 0 {
                old(p).total_pages
            } else {
                old(p).total_pages.wrapping_add(section_pages(inter as int, latent as int) as u64)
            },
            forall|x: int|
                0 <= x < 4 ==> #[trigger] p.dead_lanes@[x] == if x < i {
                    old(p).dead_lanes@[x].wrapping_add(dead_count(g@, threshold(x)) as u64)
                } else {
                    old(p).dead_lanes@[x]
                },
            forall|x: int|
                0 <= x < 4 ==> #[trigger] p.dead_pages@[x] == if x < i {
                    old(p).dead_pages@[x].wrapping_add(
                        clear_pages(
                            mask_of(g@, threshold(x)),
                            inter as int,
                            latent as int,
                            section_pages(inter as int, latent as int) as nat,
                        ) as u64,
                    )
                } else {
                    old(p).dead_pages@[x]
                },
        decreases 4 - i,
    {
        let t: u32 = levels[i];
        proof {
            assert(t == threshold(i as int));
        }
        let m: Vec<bool> = dead_mask(g, t);
        proof {
            assert(m@ =~= mask_of(g@, t));
        }
        let lanes: u64 = count_dead(&m, Ghost(g@), t);
        let (dead, total): (u64, u64) = dead_pages(m.as_slice(), inter, latent);
        p.dead_lanes[i] = p.dead_lanes[i].wrapping_add(lanes);
        p.dead_pages[i] = p.dead_pages[i].wrapping_add(dead);
        if i == 0 {
            p.total_pages = p.total_pages.wrapping_add(total);
        }
        i += 1;
    }
    p.total_lanes = p.total_lanes.wrapping_add(g.len() as u64);
}

/// What the probe found: of each level the dead lanes and the pages they clear, with
/// what they are out of.
#[derive(Clone, Copy)]
pub struct ChessReport {
    pub lanes: u64,
    pub pages: u64,
    pub dead_lanes: [u64; 4],
    pub dead_pages: [u64; 4],
}

/// The probe's findings; nothing where it is off or saw nothing.
pub fn report(p: &ChessProbe) -> (r: Option<ChessReport>)
    ensures
        r is Some <==> p.enabled && p.total_lanes > 0 && p.total_pages > 0,
        r matches Some(s) ==> s.lanes == p.total_lanes && s.pages == p.total_pages && s.dead_lanes
            == p.dead_lanes && s.dead_pages == p.dead_pages,
{
    if !p.enabled || p.total_lanes == 0 || p.total_pages == 0 {
        return None;
    }
    Some(
        ChessReport {
            lanes: p.total_lanes,
            pages: p.total_pages,
            dead_lanes: p.dead_lanes,
            dead_pages: p.dead_pages,
        },
    )
}

/// A section whose lanes are all dead is skipped whole.
pub proof fn law_all_dead_clears_every_page(dead: Seq<bool>, inter: int, latent: int, pages: nat)
    requires
        forall|i: int| 0 <= i < dead.len() ==> #[trigger] dead[i],
    ensures
        clear_pages(dead, inter, latent, pages) == pages,
    decreases pages,
{
    if pages > 0 {
        law_all_dead_clears_every_page(dead, inter, latent, (pages - 1) as nat);
    }
}

/// A lane that comes alive never clears a page.
pub proof fn law_more_live_lanes_clear_no_more_pages(
    a: Seq<bool>,
    b: Seq<bool>,
    inter: int,
    latent: int,
    pages: nat,
)
    requires
        a.len() == b.len(),
        forall|i: int| 0 <= i < a.len() && #[trigger] b[i] ==> a[i],
    ensures
        clear_pages(b, inter, latent, pages) <= clear_pages(a, inter, latent, pages),
    decreases pages,
{
    if pages > 0 {
        law_more_live_lanes_clear_no_more_pages(a, b, inter, latent, (pages - 1) as nat);
        if page_touched(a, a.len() as int, inter, latent, pages - 1) {
            let l = choose|l: int|
                0 <= l < a.len() && !a[l] && #[trigger] lane_touches(l, inter, latent, pages - 1);
            assert(!b[l]);
            assert(lane_touches(l, inter, latent, pages - 1));
        }
    }
}

/// A range reaches a page of 4096 bytes exactly where some byte of it lies there.
pub proof fn law_a_page_is_reached_by_a_byte(range: (int, int), page: int)
    requires
        0 <= range.0,
        0 <= page,
    ensures
        covers(range, page) <==> exists|at: int|
            #[trigger] holds(range, at) && 4096 * page <= at < 4096 * page + 4096,
{
    if covers(range, page) {
        let at = if range.0 >= 4096 * page {
            range.0
        } else {
            4096 * page
        };
        assert(holds(range, at));
    }
    if exists|at: int| #[trigger] holds(range, at) && 4096 * page <= at < 4096 * page + 4096 {
        let at = choose|at: int|
            #[trigger] holds(range, at) && 4096 * page <= at < 4096 * page + 4096;
        assert(at / 4096 == page);
    }
}

/// A byte is held by a range that starts at or before it and ends after it.
pub proof fn law_a_range_holds_its_bytes(start: int, len: int, at: int)
    ensures
        holds((start, len), at) <==> 0 <= at - start < len,
{
}

/// A lane is dead where its gate is a number of a magnitude up to the threshold.
pub proof fn law_a_dead_lane_is_near_zero(g: u32, t: u32)
    requires
        t <= 0x7f80_0000,
    ensures
        lane_dead(g, t) <==> g <= t || 0x8000_0000 <= g <= 0x8000_0000 + t,
{
}

/// Dead lanes are counted one by one.
pub proof fn law_dead_lanes_are_counted(g: Seq<u32>, t: u32)
    ensures
        dead_count(g, t) == g.filter(|x: u32| lane_dead(x, t)).len(),
        mask_of(g, t).len() == g.len(),
        forall|i: int| 0 <= i < g.len() ==> #[trigger] mask_of(g, t)[i] == lane_dead(g[i], t),
    decreases g.len(),
{
    reveal(Seq::filter);
    if g.len() > 0 {
        law_dead_lanes_are_counted(g.drop_last(), t);
    }
}

/// A page counts as clear exactly where no live lane has a byte in it.
pub proof fn law_clear_pages_hold_no_live_byte(
    dead: Seq<bool>,
    inter: int,
    latent: int,
    pages: nat,
)
    requires
        0 <= inter,
        0 <= latent,
    ensures
        clear_pages(dead, inter, latent, 0) == 0,
        clear_pages(dead, inter, latent, pages + 1) == clear_pages(dead, inter, latent, pages)
            + if exists|lane: int, at: int|
            0 <= lane < dead.len() && !dead[lane] && #[trigger] lane_owns(lane, inter, latent, at)
                && 4096 * pages <= at < 4096 * pages + 4096 {
            0nat
        } else {
            1
        },
{
    let page = pages as int;
    let n = dead.len() as int;
    if page_touched(dead, n, inter, latent, page) {
        let lane = choose|lane: int|
            0 <= lane < n && !dead[lane] && #[trigger] lane_touches(lane, inter, latent, page);
        let parts = expert_fp4::row_parts(lane, inter, latent);
        lemma_parts_nonneg(lane, inter, latent);
        law_a_page_is_reached_by_a_byte(parts.0, page);
        law_a_page_is_reached_by_a_byte(parts.1, page);
        if covers(parts.0, page) {
            let at = choose|at: int|
                #[trigger] holds(parts.0, at) && 4096 * page <= at < 4096 * page + 4096;
            assert(lane_owns(lane, inter, latent, at));
        } else {
            let at = choose|at: int|
                #[trigger] holds(parts.1, at) && 4096 * page <= at < 4096 * page + 4096;
            assert(lane_owns(lane, inter, latent, at));
        }
    }
    if exists|lane: int, at: int|
        0 <= lane < dead.len() && !dead[lane] && #[trigger] lane_owns(lane, inter, latent, at)
            && 4096 * pages <= at < 4096 * pages + 4096 {
        let (lane, at) = choose|lane: int, at: int|
            0 <= lane < dead.len() && !dead[lane] && #[trigger] lane_owns(lane, inter, latent, at)
                && 4096 * pages <= at < 4096 * pages + 4096;
        let parts = expert_fp4::row_parts(lane, inter, latent);
        lemma_parts_nonneg(lane, inter, latent);
        law_a_page_is_reached_by_a_byte(parts.0, page);
        law_a_page_is_reached_by_a_byte(parts.1, page);
        assert(lane_touches(lane, inter, latent, page));
    }
}

proof fn lemma_parts_nonneg(lane: int, inter: int, latent: int)
    requires
        0 <= lane,
        0 <= inter,
        0 <= latent,
    ensures
        0 <= expert_fp4::row_parts(lane, inter, latent).0.0,
        0 <= expert_fp4::row_parts(lane, inter, latent).1.0,
{
    assert(0 <= lane * (latent / 2) && 0 <= lane * (latent / 32) && 0 <= inter * latent)
        by (nonlinear_arith)
        requires
            0 <= lane,
            0 <= inter,
            0 <= latent,
    ;
}

/// A section takes so many pages that its bytes fit, and one page fewer would not hold
/// them.
pub proof fn law_pages_hold_the_section(inter: int, latent: int)
    ensures
        expert_fp4::section_size(inter, latent) <= 4096 * section_pages(inter, latent),
        4096 * (section_pages(inter, latent) - 1) < expert_fp4::section_size(inter, latent),
{
}

/// Lanes are tried at exactly zero, and at a thousandth, a hundredth and a tenth.
pub proof fn law_thresholds_ascend()
    ensures
        threshold(0) == 0,
        threshold(1) == 0x3a83_126f,
        threshold(2) == 0x3c23_d70a,
        threshold(3) == 0x3dcc_cccd,
{
}

} // verus!
