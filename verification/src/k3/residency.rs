//! Expert residency: how many experts may be kept in memory, and which.
//!
//! Pinning takes memory from the page cache that serves everything else, so the budget
//! leaves the cache a reserve and room for a block of distinct experts, and the number
//! pinned rises only as the histogram of routed experts fills.
use vstd::prelude::*;

use crate::arith::saturating_product;
use crate::doubles;
use crate::doubles::Fraction;
use crate::text::{self, chars_of, same_text, text_of};

verus! {

/// Bytes that stay with the page cache.
pub const PAGE_CACHE_RESERVE: u64 = 2_500_000_000;

/// Distinct experts that one block of prompt tokens may touch.
pub const WORKING_SET_BLOCK: u64 = 64;

/// No pinning below this many recorded selections.
pub const AUTOPIN_MIN_SELECTIONS: u64 = 5_000;

/// Confidence is full at this many selections.
pub const AUTOPIN_FULL_SELECTIONS: u64 = 200_000;

/// Free memory where it cannot be told.
pub const UNKNOWN_MEMORY: u64 = 8_000_000_000;

/// 0.88, the share of memory that pins may claim, as a numerator over 2^53.
pub const RAM_FRACTION: u64 = 7_926_335_344_172_073;

// ---------------------------------------------------------------------- budgets

/// Free bytes behind the label of one line of the memory table.
pub open spec fn memory_line(line: Seq<char>) -> Option<Seq<char>> {
    if "MemAvailable:"@.is_prefix_of(line) {
        let w = text::words(line.skip("MemAvailable:"@.len() as int));
        if w.len() > 0 {
            Some(w[0])
        } else {
            None
        }
    } else {
        None
    }
}

/// The first free-memory entry of a memory table.
pub open spec fn memory_entry(lines: Seq<Seq<char>>) -> Option<Seq<char>>
    decreases lines.len(),
{
    if lines.len() == 0 {
        None
    } else if memory_line(lines[0]) is Some {
        memory_line(lines[0])
    } else {
        memory_entry(lines.skip(1))
    }
}

/// Free bytes that a memory table tells of, never zero.
pub open spec fn memory_told(table: Option<&str>) -> int {
    let kib = match table {
        Some(s) => match memory_entry(text::line_pieces(s@)) {
            Some(w) => match text::decimal_within(w, u64::MAX as nat) {
                Some(n) => n,
                None => 0,
            },
            None => 0,
        },
        None => 0nat,
    };
    if kib == 0 {
        UNKNOWN_MEMORY as int
    } else if kib * 1024 > u64::MAX {
        u64::MAX as int
    } else {
        kib as int * 1024
    }
}

fn read_memory_line(line: &[char]) -> (r: Option<Vec<char>>)
    ensures
        r is Some <==> memory_line(line@) is Some,
        r is Some ==> r->0@ == memory_line(line@)->0,
{
    let label: Vec<char> = chars_of("MemAvailable:");
    if line.len() < label.len() {
        return None;
    }
    let mut i: usize = 0;
    while i < label.len()
        invariant
            i <= label.len() <= line.len(),
            label@ == "MemAvailable:"@,
            forall|j: int| 0 <= j < i ==> label[j] == line[j],
        decreases label.len() - i,
    {
        if line[i] != label[i] {
            return None;
        }
        i += 1;
    }
    let rest: Vec<char> = text::slice_of(line, label.len(), line.len());
    proof {
        assert(line@.skip(label.len() as int) =~= rest@);
    }
    let mut words: Vec<Vec<char>> = text::split_words(rest.as_slice());
    if words.len() == 0 {
        None
    } else {
        Some(words.swap_remove(0))
    }
}

/// Free memory out of a memory table, in bytes: 1024 times the first entry. A table
/// that is missing or tells nothing must not read as no memory at all.
pub fn mem_available(table: Option<&str>) -> (bytes: u64)
    ensures
        bytes == memory_told(table),
        bytes > 0,
{
    let s: &str = match table {
        None => {
            return UNKNOWN_MEMORY;
        },
        Some(s) => s,
    };
    let v: Vec<char> = chars_of(s);
    let lines: Vec<Vec<char>> = text::split_lines(v.as_slice());
    let ghost all = text::line_pieces(s@);
    let mut i: usize = 0;
    proof {
        assert(all.skip(0) =~= all);
    }
    while i < lines.len()
        invariant
            i <= lines.len(),
            all == text::line_pieces(s@),
            table == Some(s),
            lines.len() == all.len(),
            forall|j: int| 0 <= j < lines.len() ==> (#[trigger] lines[j])@ == all[j],
            memory_entry(all.skip(i as int)) == memory_entry(all),
        decreases lines.len() - i,
    {
        proof {
            assert(all.skip(i as int)[0] == all[i as int]);
            assert(all.skip(i as int).skip(1) =~= all.skip(i + 1));
        }
        if let Some(w) = read_memory_line(lines[i].as_slice()) {
            return match text::parse_within(w.as_slice(), u64::MAX) {
                Some(kib) => {
                    if kib == 0 {
                        UNKNOWN_MEMORY
                    } else {
                        saturating_product(kib, 1024)
                    }
                },
                None => UNKNOWN_MEMORY,
            };
        }
        i += 1;
    }
    UNKNOWN_MEMORY
}

/// Bytes that stay out of the pin budget besides the caller's own reserve.
pub open spec fn slack(expert_bytes: u64) -> int {
    PAGE_CACHE_RESERVE + WORKING_SET_BLOCK * expert_bytes
}

/// Experts that fit.
pub open spec fn pinned_within(budget: u64, reserve: u64, expert_bytes: u64) -> int {
    let usable = doubles::cut(doubles::scaled(budget as nat, RAM_FRACTION as nat, 53)) as int;
    let left = usable - (reserve + slack(expert_bytes));
    if expert_bytes == 0 || left <= 0 {
        0
    } else {
        left / expert_bytes as int
    }
}

/// How many experts may be pinned out of `budget_bytes`, with `reserve_bytes` left for
/// the resident weights and the state.
pub fn pin_budget_experts(budget_bytes: u64, reserve_bytes: u64, expert_bytes: u64) -> (n: usize)
    requires
        slack(expert_bytes) <= u64::MAX,
    ensures
        n == if pinned_within(budget_bytes, reserve_bytes, expert_bytes) <= usize::MAX {
            pinned_within(budget_bytes, reserve_bytes, expert_bytes)
        } else {
            usize::MAX as int
        },
{
    if expert_bytes == 0 {
        return 0;
    }
    let held: u64 = PAGE_CACHE_RESERVE + WORKING_SET_BLOCK * expert_bytes;
    let usable: u64 = doubles::scale(budget_bytes, RAM_FRACTION, 53);
    let kept: u64 = reserve_bytes.saturating_add(held);
    let left: u64 = usable.saturating_sub(kept);
    let n: u64 = left / expert_bytes;
    if n <= usize::MAX as u64 {
        n as usize
    } else {
        usize::MAX
    }
}

/// Pins that the histogram's confidence allows: half the budget times the share of a
/// full histogram.
pub open spec fn confident_pins(total: u64, budget: usize) -> nat {
    if total < AUTOPIN_MIN_SELECTIONS {
        0
    } else if total >= AUTOPIN_FULL_SELECTIONS {
        doubles::scaled(budget as nat, 1, 1)
    } else {
        let full = AUTOPIN_FULL_SELECTIONS as nat;
        doubles::scaled(
            budget as nat,
            doubles::quotient(total as nat, full),
            doubles::doublings(total as nat, full) + 1,
        )
    }
}

/// How many experts to pin: none before the histogram holds a few thousand selections,
/// then a share that rises in a straight line to half the budget.
pub fn autopin_count(total_selections: u64, budget_experts: usize) -> (n: usize)
    ensures
        n == if confident_pins(total_selections, budget_experts) <= usize::MAX {
            confident_pins(total_selections, budget_experts)
        } else {
            usize::MAX as nat
        },
{
    if total_selections < AUTOPIN_MIN_SELECTIONS {
        return 0;
    }
    let wide: u64 = if total_selections >= AUTOPIN_FULL_SELECTIONS {
        doubles::scale(budget_experts as u64, 1, 1)
    } else {
        let f: Fraction = doubles::fraction(total_selections, AUTOPIN_FULL_SELECTIONS);
        doubles::scale(budget_experts as u64, f.m, f.k + 1)
    };
    if wide <= usize::MAX as u64 {
        wide as usize
    } else {
        usize::MAX
    }
}

/// A fuller histogram never pins fewer experts. At most half the budget is pinned: none of
/// it below the least histogram, all of the half from a full one on.
pub proof fn law_pins_rise_with_the_histogram(fewer: u64, more: u64, budget: usize)
    requires
        fewer <= more,
        budget < doubles::EXACT,
    ensures
        confident_pins(fewer, budget) <= confident_pins(more, budget),
        2 * confident_pins(more, budget) <= budget,
        more < AUTOPIN_MIN_SELECTIONS ==> confident_pins(more, budget) == 0,
        more >= AUTOPIN_FULL_SELECTIONS ==> confident_pins(more, budget) == budget / 2,
{
    let full = AUTOPIN_FULL_SELECTIONS as nat;
    let b = budget as nat;
    doubles::lemma_scaled_half(b);
    if AUTOPIN_MIN_SELECTIONS <= more < AUTOPIN_FULL_SELECTIONS {
        doubles::lemma_scaled_below_half(b, more as nat, full);
    }
    if AUTOPIN_MIN_SELECTIONS <= fewer < AUTOPIN_FULL_SELECTIONS {
        doubles::lemma_scaled_below_half(b, fewer as nat, full);
        if more < AUTOPIN_FULL_SELECTIONS {
            doubles::lemma_scaled_order(b, fewer as nat, more as nat, full);
        }
    }
}

/// A setting that asks for pinning: set, not empty and not `0`.
pub open spec fn asks_for_pins(setting: Option<&str>) -> bool {
    setting matches Some(s) && s@.len() > 0 && s@ != "0"@
}

/// The bytes that pins may come out of.
pub open spec fn pin_bytes(setting: Option<&str>, available: u64) -> u64 {
    match setting {
        Some(s) => match text::decimal_within(text::trimmed(s@), u64::MAX as nat) {
            Some(n) => n as u64,
            None => available,
        },
        None => available,
    }
}

/// The pin budget of a rank: zero unless pinning is asked for, since a wrong pin set is
/// worse than none.
pub fn autopin_budget(
    autopin: Option<&str>,
    bytes: Option<&str>,
    available: u64,
    expert_bytes: u64,
    reserve_bytes: u64,
) -> (n: usize)
    requires
        slack(expert_bytes) <= u64::MAX,
    ensures
        !asks_for_pins(autopin) ==> n == 0,
        asks_for_pins(autopin) ==> n == {
            let m = pinned_within(pin_bytes(bytes, available), reserve_bytes, expert_bytes);
            if m <= usize::MAX {
                m
            } else {
                usize::MAX as int
            }
        },
{
    match autopin {
        None => {
            return 0;
        },
        Some(s) => {
            let v: Vec<char> = chars_of(s);
            if v.len() == 0 || same_text(s, "0") {
                return 0;
            }
        },
    }
    let budget: u64 = match bytes {
        None => available,
        Some(s) => {
            let v: Vec<char> = chars_of(s);
            let t: Vec<char> = text::trim(v.as_slice());
            match text::parse_within(t.as_slice(), u64::MAX) {
                Some(n) => n,
                None => available,
            }
        },
    };
    pin_budget_experts(budget, reserve_bytes, expert_bytes)
}

/// Pins never reach into the reserve: what is pinned, what the caller keeps back, the
/// page cache and a block of experts together stay within the usable share.
pub proof fn law_pins_leave_the_reserve(budget: u64, reserve: u64, expert_bytes: u64)
    requires
        pinned_within(budget, reserve, expert_bytes) > 0,
    ensures
        pinned_within(budget, reserve, expert_bytes) * expert_bytes + reserve + slack(expert_bytes)
            <= doubles::cut(doubles::scaled(budget as nat, RAM_FRACTION as nat, 53)),
{
    let usable = doubles::cut(doubles::scaled(budget as nat, RAM_FRACTION as nat, 53)) as int;
    let left = usable - (reserve + slack(expert_bytes));
    vstd::arithmetic::div_mod::lemma_fundamental_div_mod(left, expert_bytes as int);
    assert((left / expert_bytes as int) * expert_bytes == expert_bytes * (left
        / expert_bytes as int)) by (nonlinear_arith);
}

// -------------------------------------------------------------------- histogram

/// How often an expert was routed to.
#[derive(Clone, Copy)]
pub struct Usage {
    pub layer: u32,
    pub expert: u32,
    pub count: u64,
}

/// Routed-expert counts by layer and expert.
pub struct UsageStats {
    pub entries: Vec<Usage>,
}

/// The counts that a list of entries stands for.
pub open spec fn counts_of(s: Seq<Usage>) -> Map<(u32, u32), nat>
    decreases s.len(),
{
    if s.len() == 0 {
        Map::empty()
    } else {
        let u = s.last();
        counts_of(s.drop_last()).insert((u.layer, u.expert), u.count as nat)
    }
}

/// No pair stands twice.
pub open spec fn pairs_differ(s: Seq<Usage>) -> bool {
    forall|i: int, j: int|
        #![trigger s[i], s[j]]
        0 <= i < j < s.len() ==> (s[i].layer, s[i].expert) != (s[j].layer, s[j].expert)
}

/// All counts together.
pub open spec fn counts_total(s: Seq<Usage>) -> nat
    decreases s.len(),
{
    if s.len() == 0 {
        0
    } else {
        counts_total(s.drop_last()) + s.last().count as nat
    }
}

/// A pair's count, zero where it was never seen.
pub open spec fn count_in(m: Map<(u32, u32), nat>, key: (u32, u32)) -> nat {
    if m.dom().contains(key) {
        m[key]
    } else {
        0
    }
}

/// The counts with `c` more for one pair.
pub open spec fn counted(m: Map<(u32, u32), nat>, key: (u32, u32), c: nat) -> Map<(u32, u32), nat> {
    m.insert(key, count_in(m, key) + c)
}

proof fn lemma_counts_at(s: Seq<Usage>, i: int)
    requires
        pairs_differ(s),
        0 <= i < s.len(),
    ensures
        counts_of(s).dom().contains((s[i].layer, s[i].expert)),
        counts_of(s)[(s[i].layer, s[i].expert)] == s[i].count,
    decreases s.len(),
{
    let d = s.drop_last();
    assert(pairs_differ(d)) by {
        assert forall|a: int, b: int|
            #![trigger d[a], d[b]]
            0 <= a < b < d.len() implies (d[a].layer, d[a].expert) != (d[b].layer, d[b].expert) by {
            assert(d[a] == s[a] && d[b] == s[b]);
        }
    }
    if i < s.len() - 1 {
        lemma_counts_at(d, i);
        assert(d[i] == s[i]);
        assert(s[i] == s[i] && s[s.len() - 1] == s.last());
    }
}

proof fn lemma_counts_from(s: Seq<Usage>, key: (u32, u32))
    requires
        counts_of(s).dom().contains(key),
    ensures
        exists|i: int| 0 <= i < s.len() && (#[trigger] s[i]).layer == key.0 && s[i].expert == key.1,
    decreases s.len(),
{
    let d = s.drop_last();
    if (s.last().layer, s.last().expert) != key {
        lemma_counts_from(d, key);
        let i = choose|i: int|
            0 <= i < d.len() && (#[trigger] d[i]).layer == key.0 && d[i].expert == key.1;
        assert(s[i] == d[i]);
    } else {
        assert(s[s.len() - 1] == s.last());
    }
}

proof fn lemma_counts_update(s: Seq<Usage>, i: int, u: Usage)
    requires
        pairs_differ(s),
        0 <= i < s.len(),
        u.layer == s[i].layer,
        u.expert == s[i].expert,
    ensures
        counts_of(s.update(i, u)) =~= counts_of(s).insert((u.layer, u.expert), u.count as nat),
        pairs_differ(s.update(i, u)),
        counts_total(s.update(i, u)) == counts_total(s) - s[i].count + u.count,
    decreases s.len(),
{
    let t = s.update(i, u);
    assert forall|a: int, b: int|
        #![trigger t[a], t[b]]
        0 <= a < b < t.len() implies (t[a].layer, t[a].expert) != (t[b].layer, t[b].expert) by {
        assert(s[a] == s[a] && s[b] == s[b]);
    }
    let d = s.drop_last();
    if i == s.len() - 1 {
        assert(t.drop_last() =~= d);
    } else {
        assert(t.drop_last() =~= d.update(i, u));
        assert(pairs_differ(d)) by {
            assert forall|a: int, b: int|
                #![trigger d[a], d[b]]
                0 <= a < b < d.len() implies (d[a].layer, d[a].expert) != (
            d[b].layer, d[b].expert) by {
                assert(d[a] == s[a] && d[b] == s[b]);
            }
        }
        lemma_counts_update(d, i, u);
        assert(s[i] == d[i]);
        let l = s[s.len() - 1];
        assert((l.layer, l.expert) != (u.layer, u.expert));
        assert(t.last() == l);
    }
}

/// `a` goes before `b` among a layer's experts: routed to more often, or as often with
/// the lower id.
pub open spec fn hotter(m: Map<(u32, u32), nat>, layer: u32, a: u32, b: u32) -> bool {
    m[(layer, a)] > m[(layer, b)] || (m[(layer, a)] == m[(layer, b)] && a < b)
}

/// The `n` hottest experts of a layer, hottest first.
pub open spec fn is_hottest(m: Map<(u32, u32), nat>, layer: u32, n: int, r: Seq<u32>) -> bool {
    &&& r.len() <= n
    &&& forall|i: int| 0 <= i < r.len() ==> m.dom().contains((layer, #[trigger] r[i]))
    &&& forall|i: int, j: int| 0 <= i < j < r.len() ==> hotter(m, layer, r[i], r[j])
    &&& forall|e: u32|
        #[trigger] m.dom().contains((layer, e)) && !r.contains(e) ==> r.len() == n && forall|i: int|
            0 <= i < r.len() ==> hotter(m, layer, #[trigger] r[i], e)
}

/// `a` is hotter than `b`.
fn goes_before(a: &Usage, b: &Usage) -> (r: bool)
    ensures
        r == usage_before(*a, *b),
{
    a.count > b.count || (a.count == b.count && a.expert < b.expert)
}

impl UsageStats {
    /// No pair stands twice.
    pub open spec fn wf(&self) -> bool {
        pairs_differ(self.entries@)
    }

    /// The counts by layer and expert.
    pub open spec fn counts(&self) -> Map<(u32, u32), nat> {
        counts_of(self.entries@)
    }

    /// An empty histogram.
    pub fn new() -> (u: UsageStats)
        ensures
            u.wf(),
            u.counts() == Map::<(u32, u32), nat>::empty(),
            counts_total(u.entries@) == 0,
    {
        UsageStats { entries: Vec::new() }
    }

    /// Adds to one pair's count; `false` and unchanged where the count would not fit.
    fn count_more(&mut self, layer: u32, expert: u32, c: u64) -> (fits: bool)
        requires
            old(self).wf(),
        ensures
            final(self).wf(),
            fits <==> count_in(old(self).counts(), (layer, expert)) + c <= u64::MAX,
            fits ==> final(self).counts() == counted(old(self).counts(), (layer, expert), c as nat),
            fits ==> counts_total(final(self).entries@) == counts_total(old(self).entries@) + c,
            !fits ==> *final(self) == *old(self),
    {
        let ghost before = self.entries@;
        let mut i: usize = 0;
        while i < self.entries.len()
            invariant
                i <= self.entries.len(),
                self.entries@ == before,
                self.wf(),
                *self == *old(self),
                forall|j: int|
                    0 <= j < i ==> ((#[trigger] before[j]).layer, before[j].expert) != (
                    layer, expert),
            decreases self.entries.len() - i,
        {
            let u: Usage = self.entries[i];
            if u.layer == layer && u.expert == expert {
                proof {
                    lemma_counts_at(before, i as int);
                }
                if c > u64::MAX - u.count {
                    return false;
                }
                let more: Usage = Usage { layer, expert, count: u.count + c };
                self.entries.set(i, more);
                proof {
                    lemma_counts_update(before, i as int, more);
                    assert(self.entries@ =~= before.update(i as int, more));
                }
                return true;
            }
            i += 1;
        }
        proof {
            if counts_of(before).dom().contains((layer, expert)) {
                lemma_counts_from(before, (layer, expert));
            }
        }
        let fresh: Usage = Usage { layer, expert, count: c };
        self.entries.push(fresh);
        proof {
            let after = self.entries@;
            assert(after.drop_last() =~= before);
            assert forall|a: int, b: int|
                #![trigger after[a], after[b]]
                0 <= a < b < after.len() implies (after[a].layer, after[a].expert) != (
            after[b].layer, after[b].expert) by {
                assert(after[a] == before[a]);
                if b < before.len() {
                    assert(after[b] == before[b]);
                }
            }
        }
        true
    }

    /// Counts one selection of an expert.
    pub fn record(&mut self, layer: u32, expert: u32)
        requires
            old(self).wf(),
            count_in(old(self).counts(), (layer, expert)) < u64::MAX,
        ensures
            final(self).wf(),
            final(self).counts() == counted(old(self).counts(), (layer, expert), 1),
            counts_total(final(self).entries@) == counts_total(old(self).entries@) + 1,
    {
        let _fits: bool = self.count_more(layer, expert, 1);
    }

    /// Nothing was ever counted.
    pub fn is_empty(&self) -> (b: bool)
        ensures
            b <==> self.entries@.len() == 0,
            b <==> self.counts().dom() =~= Set::<(u32, u32)>::empty(),
    {
        proof {
            if self.entries@.len() > 0 {
                let u = self.entries@.last();
                assert(self.counts().dom().contains((u.layer, u.expert)));
            }
        }
        self.entries.len() == 0
    }

    /// All selections counted.
    pub fn total(&self) -> (n: u64)
        requires
            counts_total(self.entries@) <= u64::MAX,
        ensures
            n == counts_total(self.entries@),
    {
        let mut n: u64 = 0;
        let mut i: usize = 0;
        proof {
            assert(self.entries@.take(0) =~= Seq::<Usage>::empty());
        }
        while i < self.entries.len()
            invariant
                i <= self.entries.len(),
                n == counts_total(self.entries@.take(i as int)),
                counts_total(self.entries@) <= u64::MAX,
            decreases self.entries.len() - i,
        {
            proof {
                let t = self.entries@.take(i + 1);
                assert(t.drop_last() =~= self.entries@.take(i as int));
                assert(t.last() == self.entries@[i as int]);
                lemma_total_grows(self.entries@, i + 1);
            }
            n = n + self.entries[i].count;
            i += 1;
        }
        proof {
            assert(self.entries@.take(i as int) =~= self.entries@);
        }
        n
    }

    /// The `n` hottest experts of one layer, hottest first; among equals the lower id
    /// comes first, so that a pin set does not change from run to run.
    pub fn hottest_for(&self, layer: u32, n: usize) -> (r: Vec<u32>)
        requires
            self.wf(),
        ensures
            is_hottest(self.counts(), layer, n as int, r@),
    {
        let ghost m = self.counts();
        let ghost all = self.entries@;
        let mut r: Vec<u32> = Vec::new();
        let mut last: Option<Usage> = None;
        while r.len() < n
            invariant
                self.wf(),
                all == self.entries@,
                m == self.counts(),
                m == counts_of(all),
                r.len() <= n,
                r.len() == 0 <==> last is None,
                last is Some ==> all.contains(last->0) && last->0.layer == layer && last->0.expert
                    == r@.last(),
                forall|i: int| 0 <= i < r.len() ==> m.dom().contains((layer, #[trigger] r[i])),
                forall|i: int, j: int| 0 <= i < j < r.len() ==> hotter(m, layer, r[i], r[j]),
                forall|e: u32|
                    #[trigger] m.dom().contains((layer, e)) && !r@.contains(e) ==> forall|i: int|
                        0 <= i < r.len() ==> hotter(m, layer, #[trigger] r[i], e),
            ensures
                r.len() == n || forall|e: u32|
                    #[trigger] m.dom().contains((layer, e)) ==> r@.contains(e),
            decreases n - r.len(),
        {
            let best: Option<Usage> = self.next_hottest(layer, &last);
            match best {
                None => {
                    proof {
                        assert forall|e: u32| #[trigger] m.dom().contains((layer, e)) implies r@.contains(
                            e,
                        ) by {
                            lemma_counts_from(all, (layer, e));
                            let i = choose|i: int|
                                0 <= i < all.len() && (#[trigger] all[i]).layer == layer
                                    && all[i].expert == e;
                            lemma_counts_at(all, i);
                            assert(!follows(all[i], last));
                            if !r@.contains(e) {
                                assert(r.len() > 0);
                                assert(hotter(m, layer, r[r.len() - 1], e));
                                let k = choose|k: int| 0 <= k < all.len() && all[k] == last->0;
                                lemma_counts_at(all, k);
                            }
                        }
                    }
                    break;
                },
                Some(u) => {
                    let ghost before = r@;
                    r.push(u.expert);
                    proof {
                        let k = choose|k: int| 0 <= k < all.len() && all[k] == u;
                        lemma_counts_at(all, k);
                        let m0 = last;
                        if m0 is Some {
                            let k0 = choose|k0: int| 0 <= k0 < all.len() && all[k0] == m0->0;
                            lemma_counts_at(all, k0);
                            assert(hotter(m, layer, before.last(), u.expert));
                        }
                        assert forall|i: int, j: int| 0 <= i < j < r.len() implies hotter(
                            m,
                            layer,
                            r[i],
                            r[j],
                        ) by {
                            if j == before.len() {
                                assert(r[i] == before[i]);
                                if i < before.len() - 1 {
                                    assert(hotter(m, layer, before[i], before[before.len() - 1]));
                                }
                            } else {
                                assert(r[i] == before[i] && r[j] == before[j]);
                            }
                        }
                        assert forall|e: u32|
                            #[trigger] m.dom().contains((layer, e)) && !r@.contains(e) implies forall|
                            i: int,
                        |
                            0 <= i < r.len() ==> hotter(m, layer, #[trigger] r[i], e) by {
                            assert(!before.contains(e)) by {
                                if before.contains(e) {
                                    let x = choose|x: int| 0 <= x < before.len() && before[x] == e;
                                    assert(r[x] == e);
                                }
                            }
                            assert(r@[before.len() as int] == u.expert);
                            lemma_counts_from(all, (layer, e));
                            let i = choose|i: int|
                                0 <= i < all.len() && (#[trigger] all[i]).layer == layer
                                    && all[i].expert == e;
                            lemma_counts_at(all, i);
                            if m0 is Some {
                                assert(hotter(m, layer, before[before.len() - 1], e));
                            }
                            assert(follows(all[i], m0));
                            assert forall|x: int| 0 <= x < r.len() implies hotter(
                                m,
                                layer,
                                #[trigger] r[x],
                                e,
                            ) by {
                                if x < before.len() {
                                    assert(r[x] == before[x]);
                                }
                            }
                        }
                        assert forall|i: int| 0 <= i < r.len() implies m.dom().contains(
                            (layer, #[trigger] r[i]),
                        ) by {
                            if i < before.len() {
                                assert(r[i] == before[i]);
                            }
                        }
                    }
                    last = Some(u);
                },
            }
        }
        r
    }

    /// The hottest entry of a layer among those that come after `last`.
    fn next_hottest(&self, layer: u32, last: &Option<Usage>) -> (r: Option<Usage>)
        ensures
            r is None ==> forall|i: int|
                0 <= i < self.entries@.len() && (#[trigger] self.entries@[i]).layer == layer
                    ==> !follows(self.entries@[i], *last),
            r is Some ==> {
                &&& self.entries@.contains(r->0)
                &&& r->0.layer == layer
                &&& follows(r->0, *last)
                &&& forall|i: int|
                    0 <= i < self.entries@.len() && (#[trigger] self.entries@[i]).layer == layer
                        && follows(self.entries@[i], *last) ==> !usage_before(
                        self.entries@[i],
                        r->0,
                    )
            },
    {
        let mut best: Option<Usage> = None;
        let mut i: usize = 0;
        while i < self.entries.len()
            invariant
                i <= self.entries.len(),
                best is None ==> forall|j: int|
                    0 <= j < i && (#[trigger] self.entries@[j]).layer == layer ==> !follows(
                        self.entries@[j],
                        *last,
                    ),
                best is Some ==> {
                    &&& self.entries@.contains(best->0)
                    &&& best->0.layer == layer
                    &&& follows(best->0, *last)
                    &&& forall|j: int|
                        0 <= j < i && (#[trigger] self.entries@[j]).layer == layer && follows(
                            self.entries@[j],
                            *last,
                        ) ==> !usage_before(self.entries@[j], best->0)
                },
            decreases self.entries.len() - i,
        {
            let u: Usage = self.entries[i];
            let open: bool = match last {
                None => true,
                Some(l) => goes_before(l, &u),
            };
            if u.layer == layer && open {
                let better: bool = match &best {
                    None => true,
                    Some(b) => goes_before(&u, b),
                };
                proof {
                    assert(self.entries@[i as int] == u);
                }
                if better {
                    best = Some(u);
                }
            }
            i += 1;
        }
        best
    }
}

/// Hotter, by entry.
pub open spec fn usage_before(a: Usage, b: Usage) -> bool {
    a.count > b.count || (a.count == b.count && a.expert < b.expert)
}

/// An entry comes after the last one taken.
pub open spec fn follows(u: Usage, last: Option<Usage>) -> bool {
    last matches Some(l) ==> usage_before(l, u)
}

proof fn lemma_total_grows(s: Seq<Usage>, n: int)
    requires
        0 <= n <= s.len(),
    ensures
        counts_total(s.take(n)) <= counts_total(s),
    decreases s.len(),
{
    if n == s.len() {
        assert(s.take(n) =~= s);
    } else {
        lemma_total_grows(s.drop_last(), n);
        assert(s.drop_last().take(n) =~= s.take(n));
    }
}

// ------------------------------------------------------------------ saved form

/// One entry as a line: layer, expert and count.
pub open spec fn entry_text(u: Usage) -> Seq<char> {
    text::decimal_text(u.layer as nat) + seq![' '] + text::decimal_text(u.expert as nat) + seq![' ']
        + text::decimal_text(u.count as nat)
}

/// The saved form: a line for each entry.
pub open spec fn saved_text(s: Seq<Usage>) -> Seq<char>
    decreases s.len(),
{
    if s.len() == 0 {
        Seq::empty()
    } else {
        saved_text(s.drop_last()) + entry_text(s.last()) + seq!['\n']
    }
}

/// The entry that a line holds: three numbers, and whatever follows them.
pub open spec fn line_usage(line: Seq<char>) -> Option<Usage> {
    let w = text::words(line);
    if w.len() < 3 {
        None
    } else {
        match (
            text::decimal_within(w[0], u32::MAX as nat),
            text::decimal_within(w[1], u32::MAX as nat),
            text::decimal_within(w[2], u64::MAX as nat),
        ) {
            (Some(l), Some(e), Some(c)) => Some(
                Usage { layer: l as u32, expert: e as u32, count: c as u64 },
            ),
            _ => None,
        }
    }
}

/// Counts with those of some lines added; other lines are passed over.
pub open spec fn merged(m: Map<(u32, u32), nat>, lines: Seq<Seq<char>>) -> Map<(u32, u32), nat>
    decreases lines.len(),
{
    if lines.len() == 0 {
        m
    } else {
        let before = merged(m, lines.drop_last());
        match line_usage(lines.last()) {
            Some(u) => counted(before, (u.layer, u.expert), u.count as nat),
            None => before,
        }
    }
}

/// Every count fits in 64 bits.
pub open spec fn all_fit(m: Map<(u32, u32), nat>) -> bool {
    forall|key: (u32, u32)| m.dom().contains(key) ==> #[trigger] m[key] <= u64::MAX
}

proof fn lemma_merged_grows(m: Map<(u32, u32), nat>, lines: Seq<Seq<char>>, n: int, key: (u32, u32))
    requires
        0 <= n <= lines.len(),
        merged(m, lines.take(n)).dom().contains(key),
    ensures
        merged(m, lines).dom().contains(key),
        merged(m, lines.take(n))[key] <= merged(m, lines)[key],
    decreases lines.len(),
{
    if n == lines.len() {
        assert(lines.take(n) =~= lines);
    } else {
        assert(lines.drop_last().take(n) =~= lines.take(n));
        lemma_merged_grows(m, lines.drop_last(), n, key);
    }
}

proof fn lemma_entries_fit(s: Seq<Usage>)
    ensures
        all_fit(counts_of(s)),
    decreases s.len(),
{
    if s.len() > 0 {
        lemma_entries_fit(s.drop_last());
    }
}

fn read_line(line: &[char]) -> (r: Option<Usage>)
    ensures
        r == line_usage(line@),
{
    let w: Vec<Vec<char>> = text::split_words(line);
    if w.len() < 3 {
        return None;
    }
    let l: Option<u64> = text::parse_within(w[0].as_slice(), u32::MAX as u64);
    let e: Option<u64> = text::parse_within(w[1].as_slice(), u32::MAX as u64);
    let c: Option<u64> = text::parse_within(w[2].as_slice(), u64::MAX);
    match (l, e, c) {
        (Some(l), Some(e), Some(c)) => Some(
            Usage { layer: l as u32, expert: e as u32, count: c },
        ),
        _ => None,
    }
}

fn append_chars(v: &mut Vec<char>, more: &[char])
    ensures
        final(v)@ == old(v)@ + more@,
{
    let mut i: usize = 0;
    while i < more.len()
        invariant
            i <= more.len(),
            v@ =~= old(v)@ + more@.take(i as int),
        decreases more.len() - i,
    {
        v.push(more[i]);
        i += 1;
    }
    proof {
        assert(more@.take(i as int) =~= more@);
    }
}

impl UsageStats {
    /// A copy.
    pub fn copied(&self) -> (u: UsageStats)
        ensures
            u.entries@ == self.entries@,
    {
        let mut entries: Vec<Usage> = Vec::new();
        let mut i: usize = 0;
        while i < self.entries.len()
            invariant
                i <= self.entries.len(),
                entries@ =~= self.entries@.take(i as int),
            decreases self.entries.len() - i,
        {
            entries.push(self.entries[i]);
            i += 1;
        }
        proof {
            assert(self.entries@.take(i as int) =~= self.entries@);
        }
        UsageStats { entries }
    }

    /// The histogram as plain text, a line for each pair.
    pub fn save(&self) -> (s: String)
        ensures
            s@ == saved_text(self.entries@),
    {
        let mut v: Vec<char> = Vec::new();
        let mut i: usize = 0;
        proof {
            assert(self.entries@.take(0) =~= Seq::<Usage>::empty());
        }
        while i < self.entries.len()
            invariant
                i <= self.entries.len(),
                v@ == saved_text(self.entries@.take(i as int)),
            decreases self.entries.len() - i,
        {
            let u: Usage = self.entries[i];
            let ghost before = v@;
            append_chars(&mut v, text::write_decimal(u.layer as u64).as_slice());
            v.push(' ');
            append_chars(&mut v, text::write_decimal(u.expert as u64).as_slice());
            v.push(' ');
            append_chars(&mut v, text::write_decimal(u.count).as_slice());
            v.push('\n');
            proof {
                let t = self.entries@.take(i + 1);
                assert(t.drop_last() =~= self.entries@.take(i as int));
                assert(t.last() == u);
                assert(v@ =~= before + entry_text(u) + seq!['\n']);
            }
            i += 1;
        }
        proof {
            assert(self.entries@.take(i as int) =~= self.entries@);
        }
        text_of(v.as_slice())
    }

    /// Adds a saved histogram. A line that is not three numbers is passed over. Where a
    /// count would not fit, nothing changes and the answer is `false`.
    pub fn load(&mut self, saved: &str) -> (fits: bool)
        requires
            old(self).wf(),
        ensures
            final(self).wf(),
            fits <==> all_fit(merged(old(self).counts(), text::line_pieces(saved@))),
            fits ==> final(self).counts() == merged(
                old(self).counts(),
                text::line_pieces(saved@),
            ),
            !fits ==> *final(self) == *old(self),
    {
        let v: Vec<char> = chars_of(saved);
        let lines: Vec<Vec<char>> = text::split_lines(v.as_slice());
        let mut work: UsageStats = self.copied();
        let ghost all = text::line_pieces(saved@);
        let ghost m = self.counts();
        let mut i: usize = 0;
        proof {
            assert(all.take(0) =~= Seq::<Seq<char>>::empty());
        }
        while i < lines.len()
            invariant
                i <= lines.len(),
                *self == *old(self),
                old(self).wf(),
                m == old(self).counts(),
                all == text::line_pieces(saved@),
                lines.len() == all.len(),
                forall|j: int| 0 <= j < lines.len() ==> (#[trigger] lines[j])@ == all[j],
                work.wf(),
                work.counts() == merged(m, all.take(i as int)),
            decreases lines.len() - i,
        {
            let ghost head = all.take(i as int);
            proof {
                assert(all.take(i + 1).drop_last() =~= head);
                assert(all.take(i + 1).last() == all[i as int]);
            }
            if let Some(u) = read_line(lines[i].as_slice()) {
                let ghost before = work.counts();
                let fits: bool = work.count_more(u.layer, u.expert, u.count);
                if !fits {
                    proof {
                        let key = (u.layer, u.expert);
                        let longer = merged(m, all.take(i + 1));
                        assert(longer[key] > u64::MAX);
                        lemma_merged_grows(m, all, i + 1, key);
                        assert(merged(m, all)[key] > u64::MAX);
                    }
                    return false;
                }
            }
            i += 1;
        }
        proof {
            assert(all.take(i as int) =~= all);
            lemma_entries_fit(work.entries@);
        }
        self.entries = work.entries;
        true
    }
}

proof fn lemma_words_of_entry(u: Usage)
    ensures
        text::words(entry_text(u)) =~= seq![
            text::decimal_text(u.layer as nat),
            text::decimal_text(u.expert as nat),
            text::decimal_text(u.count as nat),
        ],
        !entry_text(u).contains('\n'),
        entry_text(u).len() > 0,
        entry_text(u).last() != '\r',
{
    let a = text::decimal_text(u.layer as nat);
    let b = text::decimal_text(u.expert as nat);
    let c = text::decimal_text(u.count as nat);
    text::lemma_decimal_text(u.layer as nat);
    text::lemma_decimal_text(u.expert as nat);
    text::lemma_decimal_text(u.count as nat);
    assert(text::unspaced(a)) by {
        assert forall|i: int| 0 <= i < a.len() implies !text::is_space(#[trigger] a[i]) by {
            assert(text::is_digit(a[i]));
        }
    }
    assert(text::unspaced(b)) by {
        assert forall|i: int| 0 <= i < b.len() implies !text::is_space(#[trigger] b[i]) by {
            assert(text::is_digit(b[i]));
        }
    }
    assert(text::unspaced(c)) by {
        assert forall|i: int| 0 <= i < c.len() implies !text::is_space(#[trigger] c[i]) by {
            assert(text::is_digit(c[i]));
        }
    }
    let none = Seq::<char>::empty();
    text::lemma_words_append(none, a);
    assert(none + a =~= a);
    assert(text::words(none) =~= Seq::<Seq<char>>::empty());
    text::lemma_words_space(a, ' ');
    assert(a.push(' ') =~= a + seq![' ']);
    let ab = a + seq![' '] + b;
    text::lemma_words_append(a + seq![' '], b);
    text::lemma_words_space(ab, ' ');
    assert(ab.push(' ') =~= ab + seq![' ']);
    text::lemma_words_append(ab + seq![' '], c);
    let all = entry_text(u);
    assert(all =~= ab + seq![' '] + c);
    assert(all.last() == c.last());
    assert(text::is_digit(c[c.len() - 1]));
    assert forall|i: int| 0 <= i < all.len() implies #[trigger] all[i] != '\n' by {
        if i < a.len() {
            assert(all[i] == a[i]);
            assert(text::is_digit(a[i]));
        } else if i == a.len() {
        } else if i < ab.len() {
            assert(all[i] == b[i - a.len() - 1]);
            assert(text::is_digit(b[i - a.len() - 1]));
        } else if i == ab.len() {
        } else {
            assert(all[i] == c[i - ab.len() - 1]);
            assert(text::is_digit(c[i - ab.len() - 1]));
        }
    }
}

proof fn lemma_line_of_entry(u: Usage)
    ensures
        line_usage(text::bare_line(entry_text(u))) == Some(u),
{
    lemma_words_of_entry(u);
    text::law_decimal_text_reads_back(u.layer as nat);
    text::law_decimal_text_reads_back(u.expert as nat);
    text::law_decimal_text_reads_back(u.count as nat);
}

/// The lines of one more entry.
proof fn lemma_saved_lines(s: Seq<Usage>)
    ensures
        text::pieces(saved_text(s), '\n').len() > 0,
        text::pieces(saved_text(s), '\n').last() == Seq::<char>::empty(),
        s.len() > 0 ==> text::pieces(saved_text(s), '\n') =~= text::pieces(
            saved_text(s.drop_last()),
            '\n',
        ).drop_last().push(entry_text(s.last())).push(Seq::empty()),
    decreases s.len(),
{
    if s.len() > 0 {
        let d = s.drop_last();
        let u = s.last();
        lemma_saved_lines(d);
        lemma_words_of_entry(u);
        let head = saved_text(d);
        text::lemma_pieces_append(head, entry_text(u), '\n');
        let p = text::pieces(head, '\n');
        assert(Seq::<char>::empty() + entry_text(u) =~= entry_text(u));
        assert(text::pieces(head + entry_text(u), '\n') =~= p.drop_last().push(entry_text(u)));
        let whole = head + entry_text(u) + seq!['\n'];
        assert(whole.drop_last() =~= head + entry_text(u));
        assert(whole.last() == '\n');
    }
}

proof fn lemma_merged_blank(m: Map<(u32, u32), nat>, lines: Seq<Seq<char>>)
    requires
        lines.len() > 0,
        lines.last() == Seq::<char>::empty(),
    ensures
        merged(m, lines) == merged(m, lines.drop_last()),
{
    assert(text::words(lines.last()).len() == 0);
}

proof fn lemma_saved_step(m: Map<(u32, u32), nat>, s: Seq<Usage>)
    requires
        s.len() > 0,
    ensures
        merged(m, text::line_pieces(saved_text(s))) == counted(
            merged(m, text::line_pieces(saved_text(s.drop_last()))),
            (s.last().layer, s.last().expert),
            s.last().count as nat,
        ),
{
    let d = s.drop_last();
    let u = s.last();
    lemma_saved_lines(s);
    lemma_saved_lines(d);
    lemma_line_of_entry(u);
    let l = text::line_pieces(saved_text(s));
    let k = text::line_pieces(saved_text(d));
    let blank = Seq::<char>::empty();
    assert(l.last() == blank);
    assert(k.last() == blank);
    lemma_merged_blank(m, l);
    lemma_merged_blank(m, k);
    assert(l.drop_last().drop_last() =~= k.drop_last());
    assert(l.drop_last().last() == text::bare_line(entry_text(u)));
}

/// Loading a saved histogram adds its counts to what is there.
pub proof fn law_saved_counts_are_added(m: Map<(u32, u32), nat>, s: Seq<Usage>, key: (u32, u32))
    requires
        pairs_differ(s),
    ensures
        ({
            let r = merged(m, text::line_pieces(saved_text(s)));
            &&& r.dom().contains(key) <==> m.dom().contains(key) || counts_of(s).dom().contains(key)
            &&& count_in(r, key) == count_in(m, key) + count_in(counts_of(s), key)
        }),
    decreases s.len(),
{
    if s.len() == 0 {
        assert(saved_text(s) =~= Seq::<char>::empty());
        let l = text::line_pieces(saved_text(s));
        assert(l.len() == 1);
        assert(l.last() == Seq::<char>::empty());
        lemma_merged_blank(m, l);
        assert(l.drop_last() =~= Seq::<Seq<char>>::empty());
    } else {
        let d = s.drop_last();
        assert(pairs_differ(d)) by {
            assert forall|a: int, b: int|
                #![trigger d[a], d[b]]
                0 <= a < b < d.len() implies (d[a].layer, d[a].expert) != (
            d[b].layer, d[b].expert) by {
                assert(d[a] == s[a] && d[b] == s[b]);
            }
        }
        law_saved_counts_are_added(m, d, key);
        lemma_saved_step(m, s);
        let u = s.last();
        if (u.layer, u.expert) == key && counts_of(d).dom().contains(key) {
            lemma_counts_from(d, key);
            let i = choose|i: int|
                0 <= i < d.len() && (#[trigger] d[i]).layer == key.0 && d[i].expert == key.1;
            assert(s[i] == d[i]);
            assert(s[s.len() - 1] == u);
        }
    }
}

/// A saved histogram reads back as it was.
pub proof fn law_saved_histogram_reads_back(s: Seq<Usage>)
    requires
        pairs_differ(s),
    ensures
        merged(Map::empty(), text::line_pieces(saved_text(s))) == counts_of(s),
{
    let none = Map::<(u32, u32), nat>::empty();
    let r = merged(none, text::line_pieces(saved_text(s)));
    assert forall|key: (u32, u32)|
        r.dom().contains(key) <==> #[trigger] counts_of(s).dom().contains(key) by {
        law_saved_counts_are_added(none, s, key);
    }
    assert forall|key: (u32, u32)| #[trigger] r.dom().contains(key) implies r[key] == counts_of(
        s,
    )[key] by {
        law_saved_counts_are_added(none, s, key);
    }
    assert(r =~= counts_of(s));
}

// ------------------------------------------------- the histogram of the process

/// How often an expert stands in a selection.
pub open spec fn times(experts: Seq<u32>, expert: u32) -> nat
    decreases experts.len(),
{
    if experts.len() == 0 {
        0
    } else {
        times(experts.drop_last(), expert) + if experts.last() == expert {
            1nat
        } else {
            0
        }
    }
}

proof fn lemma_times_prefix(experts: Seq<u32>, n: int, expert: u32)
    requires
        0 <= n <= experts.len(),
    ensures
        times(experts.take(n), expert) <= times(experts, expert),
    decreases experts.len() - n,
{
    if n == experts.len() {
        assert(experts.take(n) =~= experts);
    } else {
        assert(experts.take(n + 1).drop_last() =~= experts.take(n));
        lemma_times_prefix(experts, n + 1, expert);
    }
}

/// Counts one layer's routed experts.
pub fn record_selection(u: &mut UsageStats, layer: u32, experts: &[u32])
    requires
        old(u).wf(),
        forall|i: int|
            0 <= i < experts.len() ==> count_in(old(u).counts(), (layer, #[trigger] experts[i]))
                + times(experts@, experts[i]) <= u64::MAX,
    ensures
        final(u).wf(),
        final(u).counts() == selected(old(u).counts(), layer, experts@),
        counts_total(final(u).entries@) == counts_total(old(u).entries@) + experts@.len(),
{
    let mut i: usize = 0;
    proof {
        assert(experts@.take(0) =~= Seq::<u32>::empty());
    }
    while i < experts.len()
        invariant
            i <= experts.len(),
            u.wf(),
            u.counts() == selected(old(u).counts(), layer, experts@.take(i as int)),
            counts_total(u.entries@) == counts_total(old(u).entries@) + i,
            forall|x: int|
                0 <= x < experts.len() ==> count_in(
                    old(u).counts(),
                    (layer, #[trigger] experts[x]),
                ) + times(experts@, experts[x]) <= u64::MAX,
        decreases experts.len() - i,
    {
        proof {
            let e = experts@[i as int];
            assert(experts@.take(i + 1).drop_last() =~= experts@.take(i as int));
            law_selection_counts_each_pick(
                old(u).counts(),
                layer,
                experts@.take(i as int),
                (layer, e),
            );
            lemma_times_prefix(experts@, i + 1, e);
            assert(experts[i as int] == e);
        }
        u.record(layer, experts[i]);
        i += 1;
    }
    proof {
        assert(experts@.take(i as int) =~= experts@);
    }
}

/// A selection raises an expert's count in its layer by as often as the expert was
/// picked, and no other count.
pub proof fn law_selection_counts_each_pick(
    m: Map<(u32, u32), nat>,
    layer: u32,
    experts: Seq<u32>,
    key: (u32, u32),
)
    ensures
        count_in(selected(m, layer, experts), key) == count_in(m, key) + if key.0 == layer {
            times(experts, key.1)
        } else {
            0
        },
        selected(m, layer, experts).dom().contains(key) <==> m.dom().contains(key) || (key.0
            == layer && times(experts, key.1) > 0),
    decreases experts.len(),
{
    if experts.len() > 0 {
        law_selection_counts_each_pick(m, layer, experts.drop_last(), key);
    }
}

proof fn lemma_counts_removed(s: Seq<Usage>, i: int)
    requires
        pairs_differ(s),
        0 <= i < s.len(),
    ensures
        pairs_differ(s.remove(i)),
        counts_of(s.remove(i)) =~= counts_of(s).remove((s[i].layer, s[i].expert)),
        counts_total(s.remove(i)) == counts_total(s) - s[i].count,
    decreases s.len(),
{
    let t = s.remove(i);
    let key = (s[i].layer, s[i].expert);
    assert forall|a: int, b: int|
        #![trigger t[a], t[b]]
        0 <= a < b < t.len() implies (t[a].layer, t[a].expert) != (t[b].layer, t[b].expert) by {
        let x = if a < i {
            a
        } else {
            a + 1
        };
        let y = if b < i {
            b
        } else {
            b + 1
        };
        assert(t[a] == s[x] && t[b] == s[y]);
    }
    let d = s.drop_last();
    assert(pairs_differ(d)) by {
        assert forall|a: int, b: int|
            #![trigger d[a], d[b]]
            0 <= a < b < d.len() implies (d[a].layer, d[a].expert) != (d[b].layer, d[b].expert) by {
            assert(d[a] == s[a] && d[b] == s[b]);
        }
    }
    if i == s.len() - 1 {
        assert(t =~= d);
        if counts_of(d).dom().contains(key) {
            lemma_counts_from(d, key);
            let j = choose|j: int|
                0 <= j < d.len() && (#[trigger] d[j]).layer == key.0 && d[j].expert == key.1;
            assert(s[j] == d[j] && s[i] == s.last());
        }
    } else {
        lemma_counts_removed(d, i);
        assert(t.drop_last() =~= d.remove(i));
        assert(t.last() == s.last());
        assert(d[i] == s[i]);
        assert(s[s.len() - 1] == s.last());
    }
}

proof fn lemma_total_same(a: Seq<Usage>, b: Seq<Usage>)
    requires
        pairs_differ(a),
        pairs_differ(b),
        counts_of(a) == counts_of(b),
    ensures
        counts_total(a) == counts_total(b),
    decreases a.len(),
{
    if a.len() == 0 {
        if b.len() > 0 {
            lemma_counts_at(b, 0);
        }
    } else {
        let n = a.len() - 1;
        let key = (a[n].layer, a[n].expert);
        lemma_counts_at(a, n);
        lemma_counts_from(b, key);
        let i = choose|i: int|
            0 <= i < b.len() && (#[trigger] b[i]).layer == key.0 && b[i].expert == key.1;
        lemma_counts_at(b, i);
        lemma_counts_removed(a, n);
        lemma_counts_removed(b, i);
        lemma_total_same(a.remove(n), b.remove(i));
    }
}

proof fn lemma_total_selected(a: Seq<Usage>, b: Seq<Usage>, layer: u32, experts: Seq<u32>)
    requires
        pairs_differ(a),
        pairs_differ(b),
        counts_of(b) == selected(counts_of(a), layer, experts),
    ensures
        counts_total(b) == counts_total(a) + experts.len(),
    decreases experts.len(),
{
    if experts.len() == 0 {
        lemma_total_same(a, b);
    } else {
        let mid = selected(counts_of(a), layer, experts.drop_last());
        let key = (layer, experts.last());
        assert(counts_of(b).dom().contains(key));
        lemma_counts_from(b, key);
        let i = choose|i: int|
            0 <= i < b.len() && (#[trigger] b[i]).layer == key.0 && b[i].expert == key.1;
        lemma_counts_at(b, i);
        assert(b[i].count == count_in(mid, key) + 1);
        if mid.dom().contains(key) {
            let u = Usage { count: (b[i].count - 1) as u64, ..b[i] };
            lemma_counts_update(b, i, u);
            assert(counts_of(b.update(i, u)) =~= mid);
            lemma_total_selected(a, b.update(i, u), layer, experts.drop_last());
        } else {
            lemma_counts_removed(b, i);
            assert(counts_of(b.remove(i)) =~= mid);
            lemma_total_selected(a, b.remove(i), layer, experts.drop_last());
        }
    }
}

/// A snapshot stays as it was when more is recorded: what a later histogram holds beyond
/// it, pair by pair and in all, is what was picked since.
pub proof fn law_snapshot_tells_what_was_picked_since(
    taken: UsageStats,
    later: UsageStats,
    layer: u32,
    experts: Seq<u32>,
    key: (u32, u32),
)
    requires
        taken.wf(),
        later.wf(),
        later.counts() == selected(taken.counts(), layer, experts),
    ensures
        count_in(later.counts(), key) - count_in(taken.counts(), key) == if key.0 == layer {
            times(experts, key.1) as int
        } else {
            0
        },
        counts_total(later.entries@) == counts_total(taken.entries@) + experts.len(),
{
    law_selection_counts_each_pick(taken.counts(), layer, experts, key);
    lemma_total_selected(taken.entries@, later.entries@, layer, experts);
}

/// Counts after one layer's selection.
pub open spec fn selected(
    m: Map<(u32, u32), nat>,
    layer: u32,
    experts: Seq<u32>,
) -> Map<(u32, u32), nat>
    decreases experts.len(),
{
    if experts.len() == 0 {
        m
    } else {
        counted(selected(m, layer, experts.drop_last()), (layer, experts.last()), 1)
    }
}

/// A copy of the histogram so far.
pub fn snapshot(u: &UsageStats) -> (c: UsageStats)
    ensures
        c.entries@ == u.entries@,
{
    u.copied()
}

/// Merges a saved histogram into the running one.
pub fn load_global(u: &mut UsageStats, saved: &str) -> (fits: bool)
    requires
        old(u).wf(),
    ensures
        final(u).wf(),
        fits <==> all_fit(merged(old(u).counts(), text::line_pieces(saved@))),
        fits ==> final(u).counts() == merged(old(u).counts(), text::line_pieces(saved@)),
        !fits ==> *final(u) == *old(u),
{
    u.load(saved)
}

/// The running histogram as text, so that the next run starts warm.
pub fn save_global(u: &UsageStats) -> (s: String)
    ensures
        s@ == saved_text(u.entries@),
{
    u.save()
}

/// Where a model's directory keeps its histogram.
pub open spec fn usage_place(dir: Seq<char>) -> Seq<char> {
    if dir.len() == 0 || dir.last() == '/' {
        dir + ".k3_usage"@
    } else {
        dir + seq!['/'] + ".k3_usage"@
    }
}

/// Where a model's directory keeps its histogram.
pub fn usage_path(model_dir: &str) -> (p: String)
    ensures
        p@ == usage_place(model_dir@),
{
    let mut v: Vec<char> = chars_of(model_dir);
    if v.len() > 0 && v[v.len() - 1] != '/' {
        v.push('/');
    }
    append_chars(&mut v, chars_of(".k3_usage").as_slice());
    proof {
        assert(v@ =~= usage_place(model_dir@));
    }
    text_of(v.as_slice())
}

// ------------------------------------------------------------------------ pages

/// Rounds a byte range out to whole pages: its start and its length. An advice on a
/// range that starts inside a page is refused on some systems.
pub fn page_range(addr: usize, len: usize, page: usize) -> (r: (usize, usize))
    requires
        page > 0,
        addr + len + page - 1 <= usize::MAX,
    ensures
        r.0 == addr / page * page,
        r.0 + r.1 == (addr + len + page - 1) / page as int * page,
        r.0 <= addr,
        addr + len <= r.0 + r.1,
{
    let top: usize = addr + len + (page - 1);
    proof {
        vstd::arithmetic::div_mod::lemma_fundamental_div_mod(addr as int, page as int);
        vstd::arithmetic::div_mod::lemma_fundamental_div_mod(top as int, page as int);
        vstd::arithmetic::div_mod::lemma_div_is_ordered(addr as int, top as int, page as int);
        assert(page * (addr / page) == addr / page * page) by (nonlinear_arith);
        assert(page * (top / page) == top / page * page) by (nonlinear_arith);
        assert(addr / page * page <= top / page * page) by (nonlinear_arith)
            requires
                addr / page <= top / page,
        ;
    }
    let start: usize = addr / page * page;
    let end: usize = top / page * page;
    (start, end - start)
}

// -------------------------------------------------------- what the rules amount to

/// Pins keep clear of 2.5 gigabytes for the page cache and of 64 experts to work with.
pub proof fn law_slack_beside_the_pins(expert_bytes: u64)
    ensures
        slack(expert_bytes) == 2_500_000_000 + 64 * expert_bytes,
{
}

/// Of the memory 22 parts in 25 are usable, to within one byte or so.
pub proof fn law_usable_share_of_memory(budget: u64)
    requires
        budget < 0x20_0000_0000_0000,
    ensures
        ({
            let usable = doubles::cut(doubles::scaled(budget as nat, RAM_FRACTION as nat, 53));
            &&& 25 * usable <= 22 * budget + 23
            &&& 22 * budget <= 25 * (usable + 1) + 22
            &&& usable <= budget + 1
        }),
{
    let n = budget as nat;
    doubles::law_scaled_is_close(n, RAM_FRACTION as nat, 53);
    vstd::arithmetic::power2::lemma2_to64_rest();
    let s = doubles::scaled(n, RAM_FRACTION as nat, 53);
    assert(n * RAM_FRACTION == RAM_FRACTION * n) by (nonlinear_arith);
    assert(25 * s <= 22 * budget + 23);
    assert(22 * budget < 25 * (s + 1) + 22) by (nonlinear_arith)
        requires
            (n * 7_926_335_344_172_073) * 0x1f_ffff_ffff_ffff < 0x20_0000_0000_0000 * ((s + 1)
                * 0x20_0000_0000_0000),
            n == budget,
            n < 0x20_0000_0000_0000,
    ;
}

/// As many experts are pinned as fit: with one more, the pins, the reserve and what is
/// kept clear would exceed the usable memory.
pub proof fn law_pins_fill_what_is_left(budget: u64, reserve: u64, expert_bytes: u64)
    requires
        expert_bytes > 0,
    ensures
        ({
            let usable = doubles::cut(doubles::scaled(budget as nat, RAM_FRACTION as nat, 53));
            let n = pinned_within(budget, reserve, expert_bytes);
            &&& n >= 0
            &&& n > 0 ==> n * expert_bytes + reserve + 2_500_000_000 + 64 * expert_bytes <= usable
            &&& (n + 1) * expert_bytes + reserve + 2_500_000_000 + 64 * expert_bytes > usable
        }),
{
    let usable = doubles::cut(doubles::scaled(budget as nat, RAM_FRACTION as nat, 53)) as int;
    let left = usable - (reserve + slack(expert_bytes));
    let n = pinned_within(budget, reserve, expert_bytes);
    let e = expert_bytes as int;
    assert((n + 1) * e == n * e + e) by (nonlinear_arith);
    if left > 0 {
        vstd::arithmetic::div_mod::lemma_fundamental_div_mod(left, e);
        assert(n * e == e * n) by (nonlinear_arith);
        vstd::arithmetic::div_mod::lemma_div_pos_is_pos(left, e);
    } else {
        assert(0 * e == 0);
    }
}

/// Below 5000 selections nothing is pinned, from 200000 on half the budget; between them
/// the half in proportion to the selections.
pub proof fn law_pins_in_proportion(total: u64, budget: usize)
    requires
        budget < 0x20_0000_0000_0000,
    ensures
        total < 5_000 ==> confident_pins(total, budget) == 0,
        total >= 200_000 ==> confident_pins(total, budget) == budget / 2,
        5_000 <= total < 200_000 && budget * total < 0x8_0000_0000_0000 ==> {
            let n = confident_pins(total, budget);
            &&& 400_000 * n <= budget * total
            &&& budget * total <= 400_000 * (n + 1)
        },
{
    law_pins_rise_with_the_histogram(total, total, budget);
    if 5_000 <= total < 200_000 && budget * total < 0x8_0000_0000_0000 {
        doubles::law_half_a_fraction_of_a_count(budget as nat, total as nat, 200_000);
    }
}

/// The table of the memory gives the free memory in kibibytes; without it, or where it
/// tells nothing, eight gigabytes are taken to be free.
pub proof fn law_free_memory_in_kibibytes(table: Option<&str>, w: Seq<char>, kib: nat)
    ensures
        table is None ==> memory_told(table) == 8_000_000_000,
        table is Some && memory_entry(text::line_pieces(table->0@)) is None ==> memory_told(table)
            == 8_000_000_000,
        table is Some && memory_entry(text::line_pieces(table->0@)) == Some(w) && text::decimal(w)
            is None ==> memory_told(table) == 8_000_000_000,
        table is Some && memory_entry(text::line_pieces(table->0@)) == Some(w) && text::decimal(w)
            == Some(kib) && 0 < kib <= 18_014_398_509_481_983 ==> memory_told(table) == 1024 * kib,
{
}

/// The entry is the first word behind the name, in the first line that begins with it and
/// has a word.
pub proof fn law_entry_of_the_first_line(lines: Seq<Seq<char>>, i: int)
    requires
        0 <= i < lines.len(),
        memory_line(lines[i]) is Some,
        forall|x: int| 0 <= x < i ==> memory_line(#[trigger] lines[x]) is None,
    ensures
        memory_entry(lines) == memory_line(lines[i]),
        "MemAvailable:"@.is_prefix_of(lines[i]),
        text::words(lines[i].skip("MemAvailable:"@.len() as int))[0] == memory_line(lines[i])->0,
    decreases lines.len(),
{
    if i > 0 {
        let d = lines.skip(1);
        assert(d[i - 1] == lines[i]);
        assert forall|x: int| 0 <= x < i - 1 implies memory_line(#[trigger] d[x]) is None by {
            assert(d[x] == lines[x + 1]);
        }
        law_entry_of_the_first_line(d, i - 1);
    }
}

/// Of two experts the hotter was selected more often, or as often and has the lower id.
pub proof fn law_hotter_is_selected_more(m: Map<(u32, u32), nat>, layer: u32, a: u32, b: u32)
    ensures
        m[(layer, a)] > m[(layer, b)] ==> hotter(m, layer, a, b) && !hotter(m, layer, b, a),
        m[(layer, a)] == m[(layer, b)] ==> (hotter(m, layer, a, b) <==> a < b),
{
}

/// The hottest experts of a layer: no expert that is left out was selected more often, and
/// one is left out only where there are enough.
pub proof fn law_the_hottest_are_pinned(
    m: Map<(u32, u32), nat>,
    layer: u32,
    n: int,
    r: Seq<u32>,
    i: int,
    e: u32,
)
    requires
        is_hottest(m, layer, n, r),
        0 <= i < r.len(),
        m.dom().contains((layer, e)),
        !r.contains(e),
    ensures
        r.len() == n,
        m.dom().contains((layer, r[i])),
        forall|j: int| i < j < r.len() ==> m[(layer, #[trigger] r[j])] <= m[(layer, r[i])],
        m[(layer, e)] <= m[(layer, r[i])],
        m[(layer, e)] == m[(layer, r[i])] ==> r[i] < e,
{
    assert(hotter(m, layer, r[i], e));
    assert forall|j: int| i < j < r.len() implies m[(layer, #[trigger] r[j])] <= m[(layer, r[i])] by {
        assert(hotter(m, layer, r[i], r[j]));
    }
}

/// No more experts are pinned than asked for, all of them of the layer.
pub proof fn law_no_more_pins_than_asked(
    m: Map<(u32, u32), nat>,
    layer: u32,
    n: int,
    r: Seq<u32>,
)
    requires
        is_hottest(m, layer, n, r),
    ensures
        r.len() <= n,
        forall|i: int| 0 <= i < r.len() ==> m.dom().contains((layer, #[trigger] r[i])),
        forall|i: int, j: int| 0 <= i < j < r.len() ==> (#[trigger] r[i]) != (#[trigger] r[j]),
{
    assert forall|i: int, j: int| 0 <= i < j < r.len() implies (#[trigger] r[i]) != (
    #[trigger] r[j]) by {
        assert(hotter(m, layer, r[i], r[j]));
    }
}

/// A line of the histogram is the layer, the expert and the count, in decimal digits with
/// one blank between them, and is read in that order.
pub proof fn law_a_line_is_layer_expert_count(u: Usage)
    ensures
        text::words(entry_text(u)) =~= seq![
            text::decimal_text(u.layer as nat),
            text::decimal_text(u.expert as nat),
            text::decimal_text(u.count as nat),
        ],
        line_usage(entry_text(u)) == Some(u),
{
    let l = text::decimal_text(u.layer as nat);
    let e = text::decimal_text(u.expert as nat);
    let c = text::decimal_text(u.count as nat);
    text::lemma_decimal_text(u.layer as nat);
    text::lemma_decimal_text(u.expert as nat);
    text::lemma_decimal_text(u.count as nat);
    assert(text::unspaced(l) && text::unspaced(e) && text::unspaced(c)) by {
        assert(forall|i: int| 0 <= i < l.len() ==> text::is_digit(#[trigger] l[i]));
        assert(forall|i: int| 0 <= i < e.len() ==> text::is_digit(#[trigger] e[i]));
        assert(forall|i: int| 0 <= i < c.len() ==> text::is_digit(#[trigger] c[i]));
    }
    text::law_words_are_split_by_white_space(l, ' ', e);
    text::law_words_are_split_by_white_space(l, ' ', l);
    assert(l.push(' ') + e =~= l + seq![' '] + e);
    text::law_words_are_split_by_white_space(l.push(' ') + e, ' ', c);
    assert((l.push(' ') + e).push(' ') + c =~= entry_text(u));
    assert(text::words(entry_text(u)) =~= seq![l, e, c]);
    text::law_decimal_text_reads_back(u.layer as nat);
    text::law_decimal_text_reads_back(u.expert as nat);
    text::law_decimal_text_reads_back(u.count as nat);
}

/// The histogram lies in the folder of the model, under its name.
pub proof fn law_place_of_the_histogram(dir: Seq<char>)
    ensures
        dir.len() > 0 && dir.last() != '/' ==> usage_place(dir) =~= dir.push('/') + ".k3_usage"@,
        dir.len() == 0 || dir.last() == '/' ==> usage_place(dir) =~= dir + ".k3_usage"@,
{
}

/// A selection counts one for its expert and leaves the other counts alone.
pub proof fn law_a_count_is_added_to_its_own(
    m: Map<(u32, u32), nat>,
    key: (u32, u32),
    c: nat,
    other: (u32, u32),
)
    ensures
        m.dom().contains(key) ==> counted(m, key, c)[key] == m[key] + c,
        !m.dom().contains(key) ==> counted(m, key, c)[key] == c,
        counted(m, key, c).dom().contains(key),
        other != key ==> (counted(m, key, c).dom().contains(other) <==> m.dom().contains(other)),
        other != key && m.dom().contains(other) ==> counted(m, key, c)[other] == m[other],
{
}

/// Pins are asked for by any setting but an empty one and `0`; they come out of the bytes
/// that are set, or else of the free memory.
pub proof fn law_settings_of_pins(setting: Option<&str>, available: u64)
    ensures
        asks_for_pins(setting) <==> (setting matches Some(s) && s@.len() > 0 && s@ != "0"@),
        setting is None ==> pin_bytes(setting, available) == available,
        setting is Some ==> match text::decimal(text::trimmed(setting->0@)) {
            Some(n) if n <= u64::MAX => pin_bytes(setting, available) == n,
            _ => pin_bytes(setting, available) == available,
        },
{
}

/// Lines are merged in their order: one that is read adds its count to its expert, any
/// other changes nothing.
pub proof fn law_lines_are_merged_one_by_one(
    m: Map<(u32, u32), nat>,
    lines: Seq<Seq<char>>,
    line: Seq<char>,
)
    ensures
        merged(m, Seq::empty()) == m,
        line_usage(line) is None ==> merged(m, lines.push(line)) == merged(m, lines),
        line_usage(line) matches Some(u) ==> merged(m, lines.push(line)) == counted(
            merged(m, lines),
            (u.layer, u.expert),
            u.count as nat,
        ),
        text::words(line).len() < 3 ==> line_usage(line) is None,
{
    assert(lines.push(line).drop_last() =~= lines);
}

/// The file of a histogram is its lines, each ended by a line feed.
pub proof fn law_the_file_is_its_lines(s: Seq<Usage>, u: Usage)
    ensures
        saved_text(Seq::empty()) =~= Seq::<char>::empty(),
        saved_text(s.push(u)) =~= (saved_text(s) + entry_text(u)).push('\n'),
{
    assert(s.push(u).drop_last() =~= s);
}

/// The counts of a histogram: each entry counts for its own layer and expert.
pub proof fn law_counts_of_the_entries(s: Seq<Usage>, i: int)
    requires
        pairs_differ(s),
        0 <= i < s.len(),
    ensures
        counts_of(s).dom().contains((s[i].layer, s[i].expert)),
        counts_of(s)[(s[i].layer, s[i].expert)] == s[i].count,
        counts_total(s.drop_last()) + s.last().count == counts_total(s),
    decreases s.len(),
{
    let d = s.drop_last();
    if i < d.len() {
        assert(pairs_differ(d)) by {
            assert forall|x: int, y: int|
                #![trigger d[x], d[y]]
                0 <= x < y < d.len() implies (d[x].layer, d[x].expert) != (
                d[y].layer,
                d[y].expert,
            ) by {
                assert(s[x] == d[x] && s[y] == d[y]);
            }
        }
        law_counts_of_the_entries(d, i);
        assert(d[i] == s[i]);
        assert((s[i].layer, s[i].expert) != (s[s.len() - 1].layer, s[s.len() - 1].expert));
    }
}

} // verus!
