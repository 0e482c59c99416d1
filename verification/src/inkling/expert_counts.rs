//! Selection counts of the router, for diagnostics: how concentrated the routing
//! of a layer is.
use vstd::prelude::*;

use super::gate::GateOut;
use crate::ranking::{self, sort_descending, sum_first};

verus! {

/// Rows seen and how often each routed expert was selected.
pub struct Counts {
    pub rows: u64,
    pub selections: Vec<u64>,
}

/// How often `e` occurs.
pub open spec fn occurrences(s: Seq<usize>, e: int) -> nat
    decreases s.len(),
{
    if s.len() == 0 {
        0
    } else {
        occurrences(s.drop_last(), e) + if s.last() == e {
            1nat
        } else {
            0
        }
    }
}

/// The counts after one more row selected these experts.
pub open spec fn counted(before: Seq<u64>, idx: Seq<usize>) -> Seq<u64> {
    Seq::new(before.len(), |e: int| (before[e] + occurrences(idx, e)) as u64)
}

/// Parts per million of all selections that the `n` most selected experts take.
pub open spec fn share_ppm(selections: Seq<u64>, n: int) -> int {
    let sorted = ranking::descending(selections);
    let all = ranking::total(selections);
    let top = ranking::total(sorted.take(if n <= sorted.len() {
        n
    } else {
        sorted.len() as int
    }));
    top * 1_000_000 / if all > 0 {
        all
    } else {
        1
    }
}

/// How many experts were selected at all.
pub open spec fn distinct(selections: Seq<u64>) -> nat
    decreases selections.len(),
{
    if selections.len() == 0 {
        0
    } else {
        distinct(selections.drop_last()) + if selections.last() > 0 {
            1nat
        } else {
            0
        }
    }
}

impl Counts {
    /// All counts fit their counters together.
    pub open spec fn wf(self) -> bool {
        ranking::total(self.selections@) <= u64::MAX
    }

    pub fn new(experts: usize) -> (c: Counts)
        ensures
            c.wf(),
            c.rows == 0,
            c.selections@ =~= Seq::new(experts as nat, |i: int| 0u64),
    {
        let c = Counts { rows: 0, selections: vec![0u64; experts] };
        proof {
            lemma_total_zero(c.selections@);
        }
        c
    }

    /// Counts one row's routed selections; the shared experts do not count.
    pub fn observe(&mut self, gate: &GateOut)
        requires
            old(self).wf(),
            old(self).rows < u64::MAX,
            ranking::total(old(self).selections@) + gate.idx.len() <= u64::MAX,
            forall|i: int|
                0 <= i < gate.idx.len() ==> (#[trigger] gate.idx[i]) < old(self).selections.len(),
        ensures
            final(self).wf(),
            final(self).rows == old(self).rows + 1,
            final(self).selections@ =~= counted(old(self).selections@, gate.idx@),
            ranking::total(final(self).selections@) == ranking::total(old(self).selections@)
                + gate.idx.len(),
    {
        self.rows = self.rows + 1;
        let mut i: usize = 0;
        let ghost before = self.selections@;
        while i < gate.idx.len()
            invariant
                i <= gate.idx.len(),
                self.rows == old(self).rows + 1,
                self.selections.len() == before.len(),
                before == old(self).selections@,
                ranking::total(before) + gate.idx.len() <= u64::MAX,
                ranking::total(self.selections@) == ranking::total(before) + i,
                forall|e: int|
                    0 <= e < before.len() ==> #[trigger] self.selections[e] == before[e]
                        + occurrences(gate.idx@.take(i as int), e),
                forall|x: int|
                    0 <= x < gate.idx.len() ==> (#[trigger] gate.idx[x]) < before.len(),
            decreases gate.idx.len() - i,
        {
            let id: usize = gate.idx[i];
            proof {
                assert(gate.idx@.take(i + 1).drop_last() =~= gate.idx@.take(i as int));
                lemma_total_element(self.selections@, id as int);
                lemma_total_set(self.selections@, id as int, (self.selections[id as int] + 1) as u64);
            }
            let n: u64 = self.selections[id];
            self.selections.set(id, n + 1);
            i += 1;
        }
        proof {
            assert(gate.idx@.take(gate.idx.len() as int) =~= gate.idx@);
        }
    }

    /// Shares of the 16, 32, 64 and single most selected experts in parts per
    /// million, and how many experts were selected at all.
    pub fn summary(&self) -> (s: [u64; 5])
        requires
            self.wf(),
        ensures
            s[0] == share_ppm(self.selections@, 16),
            s[1] == share_ppm(self.selections@, 32),
            s[2] == share_ppm(self.selections@, 64),
            s[3] == share_ppm(self.selections@, 1),
            s[4] == distinct(self.selections@),
    {
        let sorted: Vec<u64> = sort_descending(self.selections.as_slice());
        proof {
            ranking::lemma_total_permuted(sorted@, self.selections@);
        }
        let mut n: u64 = 0;
        let mut i: usize = 0;
        while i < self.selections.len()
            invariant
                i <= self.selections.len(),
                n == distinct(self.selections@.take(i as int)),
                n <= i,
            decreases self.selections.len() - i,
        {
            assert(self.selections@.take(i + 1).drop_last() =~= self.selections@.take(i as int));
            if self.selections[i] > 0 {
                n = n + 1;
            }
            i += 1;
        }
        proof {
            assert(self.selections@.take(self.selections.len() as int) =~= self.selections@);
        }
        [
            ppm(&sorted, 16, Ghost(self.selections@)),
            ppm(&sorted, 32, Ghost(self.selections@)),
            ppm(&sorted, 64, Ghost(self.selections@)),
            ppm(&sorted, 1, Ghost(self.selections@)),
            n,
        ]
    }

    /// Counts one row; every 1024 rows there is a summary to report.
    pub fn observe_and_report(&mut self, gate: &GateOut) -> (r: Option<[u64; 5]>)
        requires
            old(self).wf(),
            old(self).rows < u64::MAX,
            ranking::total(old(self).selections@) + gate.idx.len() <= u64::MAX,
            forall|i: int|
                0 <= i < gate.idx.len() ==> (#[trigger] gate.idx[i]) < old(self).selections.len(),
        ensures
            final(self).wf(),
            final(self).rows == old(self).rows + 1,
            final(self).selections@ =~= counted(old(self).selections@, gate.idx@),
            r is Some <==> (old(self).rows + 1) % 1024 == 0,
            r matches Some(s) ==> {
                &&& s[0] == share_ppm(final(self).selections@, 16)
                &&& s[1] == share_ppm(final(self).selections@, 32)
                &&& s[2] == share_ppm(final(self).selections@, 64)
                &&& s[3] == share_ppm(final(self).selections@, 1)
                &&& s[4] == distinct(final(self).selections@)
            },
    {
        self.observe(gate);
        if self.rows % 1024 == 0 {
            Some(self.summary())
        } else {
            None
        }
    }
}

/// Most selected first, shares only grow with more experts, up to the whole. Where at most
/// 16 experts were selected, these are the whole; where none was, every share is zero. The
/// order in which the experts are listed makes no difference.
pub proof fn law_shares_grow_to_the_whole(selections: Seq<u64>, reordered: Seq<u64>)
    requires
        reordered.to_multiset() == selections.to_multiset(),
    ensures
        share_ppm(selections, 1) <= share_ppm(selections, 16) <= share_ppm(selections, 32)
            <= share_ppm(selections, 64) <= 1_000_000,
        distinct(selections) <= 16 && ranking::total(selections) > 0 ==> share_ppm(selections, 16)
            == 1_000_000 && share_ppm(selections, 32) == 1_000_000 && share_ppm(selections, 64)
            == 1_000_000,
        ranking::total(selections) == 0 ==> share_ppm(selections, 1) == 0 && share_ppm(
            selections,
            16,
        ) == 0 && share_ppm(selections, 32) == 0 && share_ppm(selections, 64) == 0 && distinct(
            selections,
        ) == 0,
        forall|n: int| #[trigger] share_ppm(reordered, n) == share_ppm(selections, n),
        distinct(reordered) == distinct(selections),
{
    let sorted = ranking::descending(selections);
    selections.lemma_sort_by_ensures(ranking::descends());
    reordered.lemma_sort_by_ensures(ranking::descends());
    vstd::seq_lib::lemma_sorted_unique(
        ranking::descending(reordered),
        sorted,
        ranking::descends(),
    );
    ranking::lemma_total_permuted(sorted, selections);
    ranking::lemma_total_permuted(reordered, selections);
    lemma_distinct_permuted(sorted, selections);
    lemma_distinct_permuted(reordered, selections);
    lemma_share_order(selections, 1, 16);
    lemma_share_order(selections, 16, 32);
    lemma_share_order(selections, 32, 64);
    if distinct(selections) <= 16 {
        lemma_share_whole(selections, 16);
        lemma_share_whole(selections, 32);
        lemma_share_whole(selections, 64);
    }
    if ranking::total(selections) == 0 {
        lemma_distinct_none(selections);
    }
}

/// The first `n` of a list, or all of a shorter one.
spec fn first(s: Seq<u64>, n: int) -> Seq<u64> {
    s.take(if n <= s.len() {
        n
    } else {
        s.len() as int
    })
}

proof fn lemma_share_order(selections: Seq<u64>, n: int, m: int)
    requires
        0 <= n <= m,
    ensures
        0 <= share_ppm(selections, n) <= share_ppm(selections, m) <= 1_000_000,
        ranking::total(selections) == 0 ==> share_ppm(selections, n) == 0 && share_ppm(
            selections,
            m,
        ) == 0,
{
    let sorted = ranking::descending(selections);
    selections.lemma_sort_by_ensures(ranking::descends());
    ranking::lemma_total_permuted(sorted, selections);
    let all = ranking::total(selections);
    let a = first(sorted, n);
    let b = first(sorted, m);
    ranking::lemma_total_prefix(sorted, b.len() as int);
    ranking::lemma_total_prefix(b, a.len() as int);
    assert(b.take(a.len() as int) =~= a);
    assert(sorted.take(b.len() as int) =~= b);
    let d = if all > 0 {
        all
    } else {
        1
    };
    let x = ranking::total(a) * 1_000_000;
    let y = ranking::total(b) * 1_000_000;
    vstd::arithmetic::div_mod::lemma_div_is_ordered(x, y, d);
    vstd::arithmetic::div_mod::lemma_div_is_ordered(0, x, d);
    vstd::arithmetic::div_mod::lemma_div_is_ordered(y, 1_000_000 * d, d);
    vstd::arithmetic::div_mod::lemma_div_multiples_vanish(1_000_000, d);
    assert(1_000_000 * d == d * 1_000_000);
    assert(0int / d == 0) by (nonlinear_arith)
        requires
            d > 0,
    ;
}

proof fn lemma_share_whole(selections: Seq<u64>, n: int)
    requires
        distinct(selections) <= n,
    ensures
        ranking::total(selections) > 0 ==> share_ppm(selections, n) == 1_000_000,
{
    let sorted = ranking::descending(selections);
    selections.lemma_sort_by_ensures(ranking::descends());
    ranking::lemma_total_permuted(sorted, selections);
    lemma_distinct_permuted(sorted, selections);
    if n < sorted.len() {
        assert forall|i: int| n <= i < sorted.len() implies sorted[i] == 0 by {
            if sorted[i] > 0 {
                assert forall|j: int| 0 <= j <= i implies sorted[j] > 0 by {
                    if j < i {
                        assert(ranking::descends()(sorted[j], sorted[i]));
                    }
                }
                lemma_distinct_head(sorted, i + 1);
            }
        }
        lemma_total_tail(sorted, n);
    } else {
        assert(sorted.take(sorted.len() as int) =~= sorted);
    }
    let all = ranking::total(selections);
    if all > 0 {
        vstd::arithmetic::div_mod::lemma_div_multiples_vanish(1_000_000, all);
        assert(1_000_000 * all == all * 1_000_000);
    }
}

proof fn lemma_distinct_head(s: Seq<u64>, n: int)
    requires
        0 <= n <= s.len(),
        forall|j: int| 0 <= j < n ==> s[j] > 0,
    ensures
        distinct(s) >= n,
    decreases s.len(),
{
    if n < s.len() {
        lemma_distinct_head(s.drop_last(), n);
    } else if n > 0 {
        lemma_distinct_head(s.drop_last(), n - 1);
    }
}

proof fn lemma_total_tail(s: Seq<u64>, n: int)
    requires
        0 <= n <= s.len(),
        forall|i: int| n <= i < s.len() ==> s[i] == 0,
    ensures
        ranking::total(s.take(n)) == ranking::total(s),
    decreases s.len(),
{
    if n < s.len() {
        lemma_total_tail(s.drop_last(), n);
        assert(s.drop_last().take(n) =~= s.take(n));
    } else {
        assert(s.take(n) =~= s);
    }
}

proof fn lemma_distinct_none(s: Seq<u64>)
    requires
        ranking::total(s) == 0,
    ensures
        distinct(s) == 0,
    decreases s.len(),
{
    if s.len() > 0 {
        lemma_total_element(s, s.len() - 1);
        lemma_distinct_none(s.drop_last());
    }
}

proof fn lemma_distinct_remove(s: Seq<u64>, i: int)
    requires
        0 <= i < s.len(),
    ensures
        distinct(s) == distinct(s.remove(i)) + if s[i] > 0 {
            1nat
        } else {
            0
        },
    decreases s.len(),
{
    if i == s.len() - 1 {
        assert(s.remove(i) =~= s.drop_last());
    } else {
        lemma_distinct_remove(s.drop_last(), i);
        assert(s.remove(i).drop_last() =~= s.drop_last().remove(i));
        assert(s.remove(i).last() == s.last());
    }
}

proof fn lemma_distinct_permuted(a: Seq<u64>, b: Seq<u64>)
    requires
        a.to_multiset() == b.to_multiset(),
    ensures
        distinct(a) == distinct(b),
    decreases a.len(),
{
    vstd::seq_lib::to_multiset_len(a);
    vstd::seq_lib::to_multiset_len(b);
    if a.len() > 0 {
        let x = a.last();
        vstd::seq_lib::to_multiset_contains(a, x);
        vstd::seq_lib::to_multiset_contains(b, x);
        assert(a.contains(x));
        let j = choose|j: int| 0 <= j < b.len() && b[j] == x;
        vstd::seq_lib::to_multiset_remove(a, a.len() - 1);
        vstd::seq_lib::to_multiset_remove(b, j);
        assert(a.remove(a.len() - 1) =~= a.drop_last());
        lemma_distinct_permuted(a.drop_last(), b.remove(j));
        lemma_distinct_remove(b, j);
    }
}

fn ppm(sorted: &Vec<u64>, n: usize, Ghost(selections): Ghost<Seq<u64>>) -> (r: u64)
    requires
        sorted@ == ranking::descending(selections),
        ranking::total(sorted@) == ranking::total(selections),
        ranking::total(selections) <= u64::MAX,
    ensures
        r == share_ppm(selections, n as int),
{
    let all: u128 = sum_first(sorted.as_slice(), sorted.len());
    let top: u128 = sum_first(sorted.as_slice(), n);
    proof {
        assert(sorted@.take(sorted.len() as int) =~= sorted@);
        ranking::lemma_total_prefix(
            sorted@,
            if n <= sorted.len() {
                n as int
            } else {
                sorted.len() as int
            },
        );
    }
    let d: u128 = if all > 0 {
        all
    } else {
        1
    };
    proof {
        vstd::arithmetic::div_mod::lemma_div_is_ordered(
            top * 1_000_000,
            d * 1_000_000,
            d as int,
        );
        vstd::arithmetic::div_mod::lemma_div_multiples_vanish(1_000_000, d as int);
        assert(d * 1_000_000 == 1_000_000 * d) by (nonlinear_arith);
        assert(top * 1_000_000 <= d * 1_000_000);
    }
    let q: u128 = top * 1_000_000 / d;
    q as u64
}

proof fn lemma_total_zero(s: Seq<u64>)
    requires
        forall|i: int| 0 <= i < s.len() ==> s[i] == 0,
    ensures
        ranking::total(s) == 0,
    decreases s.len(),
{
    if s.len() > 0 {
        lemma_total_zero(s.drop_last());
    }
}

proof fn lemma_total_set(s: Seq<u64>, i: int, x: u64)
    requires
        0 <= i < s.len(),
    ensures
        ranking::total(s.update(i, x)) == ranking::total(s) - s[i] + x,
    decreases s.len(),
{
    let u = s.update(i, x);
    if i == s.len() - 1 {
        assert(u.drop_last() =~= s.drop_last());
    } else {
        assert(u.drop_last() =~= s.drop_last().update(i, x));
        lemma_total_set(s.drop_last(), i, x);
    }
}

proof fn lemma_total_element(s: Seq<u64>, i: int)
    requires
        0 <= i < s.len(),
    ensures
        s[i] <= ranking::total(s),
    decreases s.len(),
{
    ranking::lemma_total_prefix(s, s.len() - 1);
    assert(s.take(s.len() - 1) =~= s.drop_last());
    if i < s.len() - 1 {
        lemma_total_element(s.drop_last(), i);
    }
}

/// An expert's count rises by the number of times that a row selected it.
pub proof fn law_every_selection_is_counted(before: Seq<u64>, idx: Seq<usize>, e: int)
    requires
        0 <= e < before.len(),
        before[e] + idx.len() <= u64::MAX,
    ensures
        counted(before, idx).len() == before.len(),
        counted(before, idx)[e] - before[e] == idx.filter(|x: usize| x == e).len(),
{
    lemma_occurrences_are_filtered(idx, e);
}

proof fn lemma_occurrences_are_filtered(idx: Seq<usize>, e: int)
    ensures
        occurrences(idx, e) == idx.filter(|x: usize| x == e).len(),
        occurrences(idx, e) <= idx.len(),
    decreases idx.len(),
{
    reveal(Seq::filter);
    if idx.len() > 0 {
        lemma_occurrences_are_filtered(idx.drop_last(), e);
    }
}

/// The distinct experts are those that were selected at all.
pub proof fn law_distinct_are_the_selected(selections: Seq<u64>)
    ensures
        distinct(selections) == selections.filter(|c: u64| c > 0).len(),
    decreases selections.len(),
{
    reveal(Seq::filter);
    if selections.len() > 0 {
        law_distinct_are_the_selected(selections.drop_last());
    }
}

/// A share is in millionths, rounded down: what the `n` most selected experts have of
/// all selections.
pub proof fn law_share_in_millionths(selections: Seq<u64>, n: int)
    requires
        0 <= n <= selections.len(),
        ranking::total(selections) > 0,
    ensures
        ({
            let all = ranking::total(selections);
            let top = ranking::total(ranking::descending(selections).take(n));
            share_ppm(selections, n) * all <= top * 1_000_000 < (share_ppm(selections, n) + 1) * all
        }),
{
    selections.lemma_sort_by_ensures(ranking::descends());
    vstd::seq_lib::to_multiset_len(selections);
    vstd::seq_lib::to_multiset_len(ranking::descending(selections));
    let all = ranking::total(selections);
    let top = ranking::total(ranking::descending(selections).take(n));
    let q = share_ppm(selections, n);
    vstd::arithmetic::div_mod::lemma_fundamental_div_mod(top * 1_000_000, all);
    assert((q + 1) * all == all * q + all && q * all == all * q) by (nonlinear_arith);
}

} // verus!
