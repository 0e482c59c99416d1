//! Deterministic rankings: the `k` best of a list, and counts in descending order.
use vstd::prelude::*;

use crate::float_bits::{self, order_key};

verus! {

/// Index `a` ranks before `b`: a greater key, or an equal one and a lower index.
pub open spec fn ranks_before(keys: Seq<u32>, a: int, b: int) -> bool {
    float_bits::total_key(keys[a]) > float_bits::total_key(keys[b]) || (float_bits::total_key(
        keys[a],
    ) == float_bits::total_key(keys[b]) && a < b)
}

/// `r` holds the `k` indices that rank first, in order.
pub open spec fn is_top(keys: Seq<u32>, k: int, r: Seq<usize>) -> bool {
    &&& r.len() == k
    &&& forall|i: int| 0 <= i < r.len() ==> (#[trigger] r[i]) < keys.len()
    &&& forall|i: int, j: int|
        0 <= i < j < r.len() ==> ranks_before(
            keys,
            (#[trigger] r[i]) as int,
            (#[trigger] r[j]) as int,
        )
    &&& forall|i: int, e: usize|
        0 <= i < r.len() && e < keys.len() && !(#[trigger] r.contains(e)) ==> ranks_before(
            keys,
            (#[trigger] r[i]) as int,
            e as int,
        )
}

/// Index `a` ranks before `b` where its key is the greater one, read off the patterns,
/// or the keys are the same pattern and `a` is the lower index.
pub proof fn law_ranks_by_key_and_index(keys: Seq<u32>, a: int, b: int)
    ensures
        keys[a] == keys[b] ==> (ranks_before(keys, a, b) <==> a < b),
        keys[a] < 0x8000_0000 && keys[b] < 0x8000_0000 && keys[a] != keys[b] ==> (ranks_before(
            keys,
            a,
            b,
        ) <==> keys[a] > keys[b]),
        keys[a] >= 0x8000_0000 && keys[b] >= 0x8000_0000 && keys[a] != keys[b] ==> (ranks_before(
            keys,
            a,
            b,
        ) <==> keys[a] < keys[b]),
        keys[a] < 0x8000_0000 && keys[b] >= 0x8000_0000 ==> ranks_before(keys, a, b),
        keys[a] >= 0x8000_0000 && keys[b] < 0x8000_0000 ==> !ranks_before(keys, a, b),
{
}

/// What ranks among the first `k` has a key at least as great as what does not: of two
/// positive keys the greater pattern or the same at a lower index.
pub proof fn law_top_keys_are_the_greatest(keys: Seq<u32>, k: int, r: Seq<usize>, i: int, e: usize)
    requires
        is_top(keys, k, r),
        0 <= i < r.len(),
        e < keys.len(),
        !r.contains(e),
    ensures
        r.len() == k,
        r[i] < keys.len(),
        ({
            let a = keys[r[i] as int];
            let b = keys[e as int];
            &&& a < 0x8000_0000 && b < 0x8000_0000 ==> a > b || (a == b && r[i] < e)
            &&& a >= 0x8000_0000 && b >= 0x8000_0000 ==> a < b || (a == b && r[i] < e)
            &&& a >= 0x8000_0000 ==> b >= 0x8000_0000
        }),
{
    assert(ranks_before(keys, r[i] as int, e as int));
}

/// The keys of a ranking descend, and equal ones stand in order of their indices.
pub proof fn law_top_keys_descend(keys: Seq<u32>, k: int, r: Seq<usize>, i: int, j: int)
    requires
        is_top(keys, k, r),
        0 <= i < j < r.len(),
    ensures
        r[i] != r[j],
        ({
            let a = keys[r[i] as int];
            let b = keys[r[j] as int];
            &&& a < 0x8000_0000 && b < 0x8000_0000 ==> a > b || (a == b && r[i] < r[j])
            &&& a >= 0x8000_0000 && b >= 0x8000_0000 ==> a < b || (a == b && r[i] < r[j])
            &&& a >= 0x8000_0000 ==> b >= 0x8000_0000
        }),
{
    assert(ranks_before(keys, r[i] as int, r[j] as int));
}

/// The ranking is unique.
pub proof fn law_top_is_unique(keys: Seq<u32>, k: int, a: Seq<usize>, b: Seq<usize>)
    requires
        is_top(keys, k, a),
        is_top(keys, k, b),
    ensures
        a =~= b,
{
    assert forall|i: int| 0 <= i < k implies a[i] == b[i] by {
        lemma_top_agrees(keys, k, a, b, i);
    }
}

proof fn lemma_top_agrees(keys: Seq<u32>, k: int, a: Seq<usize>, b: Seq<usize>, i: int)
    requires
        is_top(keys, k, a),
        is_top(keys, k, b),
        0 <= i < k,
    ensures
        a[i] == b[i],
    decreases i,
{
    assert forall|j: int| 0 <= j < i implies a[j] == b[j] by {
        lemma_top_agrees(keys, k, a, b, j);
    }
    if a[i] != b[i] {
        lemma_not_before(keys, k, a, b, i);
        lemma_not_before(keys, k, b, a, i);
    }
}

proof fn lemma_not_before(keys: Seq<u32>, k: int, a: Seq<usize>, b: Seq<usize>, i: int)
    requires
        is_top(keys, k, a),
        is_top(keys, k, b),
        0 <= i < k,
        forall|j: int| 0 <= j < i ==> a[j] == b[j],
        a[i] != b[i],
    ensures
        ranks_before(keys, a[i] as int, b[i] as int),
{
    if a.contains(b[i]) {
        let j = choose|j: int| 0 <= j < a.len() && a[j] == b[i];
        if j < i {
            assert(b[j] == b[i]);
            assert(ranks_before(keys, b[j] as int, b[i] as int));
        } else {
            assert(ranks_before(keys, a[i] as int, a[j] as int));
        }
    } else {
        let e = b[i];
        assert(ranks_before(keys, a[i] as int, e as int));
    }
}

/// The `k` best indices: keys in descending total order, ties toward the lower
/// index.
pub fn top_ranked(keys: &[u32], k: usize) -> (r: Vec<usize>)
    requires
        k <= keys.len(),
    ensures
        is_top(keys@, k as int, r@),
{
    let n: usize = keys.len();
    let mut taken: Vec<bool> = vec![false; n];
    let mut r: Vec<usize> = Vec::new();
    while r.len() < k
        invariant
            n == keys.len(),
            k <= n,
            taken.len() == n,
            r.len() <= k,
            forall|e: usize| e < n ==> (taken@[e as int] <==> #[trigger] r@.contains(e)),
            is_top(keys@, r.len() as int, r@),
        decreases k - r.len(),
    {
        proof {
            lemma_one_left(r@, n);
        }
        let ghost left = choose|e: usize| e < n && !r@.contains(e);
        let mut best: usize = n;
        let mut i: usize = 0;
        while i < n
            invariant
                n == keys.len(),
                taken.len() == n,
                i <= n,
                left < n,
                !r@.contains(left),
                forall|e: usize| e < n ==> (taken@[e as int] <==> #[trigger] r@.contains(e)),
                best <= n,
                best < n ==> best < i && !r@.contains(best),
                best == n ==> forall|e: usize| e < i ==> #[trigger] r@.contains(e),
                forall|e: usize|
                    e < i && best < n && e != best && !#[trigger] r@.contains(e) ==> ranks_before(
                        keys@,
                        best as int,
                        e as int,
                    ),
            decreases n - i,
        {
            if !taken[i] {
                assert(!r@.contains(i));
                if best == n || order_key(keys[i]) > order_key(keys[best]) {
                    best = i;
                }
            } else {
                assert(r@.contains(i));
            }
            i += 1;
        }
        let ghost before = r@;
        proof {
            if best == n {
                assert(r@.contains(left));
            }
            assert(!before.contains(best));
            assert forall|i: int| 0 <= i < before.len() implies ranks_before(
                keys@,
                (#[trigger] before[i]) as int,
                best as int,
            ) by {
                let e = best;
                assert(ranks_before(keys@, before[i] as int, e as int));
            }
        }
        r.push(best);
        taken.set(best, true);
        proof {
            assert forall|e: usize| #[trigger] r@.contains(e) == (before.contains(e) || e == best) by {
                if before.contains(e) {
                    let j = choose|j: int| 0 <= j < before.len() && before[j] == e;
                    assert(r@[j] == e);
                }
                if e == best {
                    assert(r@[before.len() as int] == e);
                }
            }
            assert forall|i: int, e: usize|
                0 <= i < r@.len() && e < keys.len() && !(#[trigger] r@.contains(
                    e,
                )) implies ranks_before(keys@, (#[trigger] r@[i]) as int, e as int) by {
                assert(!before.contains(e));
                if i < before.len() {
                    assert(r@[i] == before[i]);
                    assert(ranks_before(keys@, before[i] as int, e as int));
                }
            }
        }
    }
    r
}

proof fn lemma_one_left(r: Seq<usize>, n: usize)
    requires
        r.len() < n,
    ensures
        exists|e: usize| e < n && !r.contains(e),
{
    if forall|e: usize| e < n ==> r.contains(e) {
        let ints = r.map_values(|x: usize| x as int);
        let all = vstd::set_lib::set_int_range(0, n as int);
        vstd::set_lib::lemma_int_range(0, n as int);
        assert(all.subset_of(ints.to_set())) by {
            assert forall|x: int| all.contains(x) implies ints.to_set().contains(x) by {
                let e = x as usize;
                assert(r.contains(e));
                let j = choose|j: int| 0 <= j < r.len() && r[j] == e;
                assert(ints[j] == x);
            }
        }
        ints.lemma_cardinality_of_set();
        vstd::set_lib::lemma_len_subset(all, ints.to_set());
    }
}

/// Greater or equal, as an ordering.
pub open spec fn descends() -> spec_fn(u64, u64) -> bool {
    |a: u64, b: u64| a >= b
}

/// The values in descending order.
pub open spec fn descending(s: Seq<u64>) -> Seq<u64> {
    s.sort_by(descends())
}

/// Sorts values in descending order.
pub fn sort_descending(v: &[u64]) -> (r: Vec<u64>)
    ensures
        r@ =~= descending(v@),
        r@.to_multiset() == v@.to_multiset(),
{
    let mut r: Vec<u64> = Vec::new();
    let mut i: usize = 0;
    proof {
        assert(v@.take(0) =~= r@);
    }
    while i < v.len()
        invariant
            i <= v.len(),
            r.len() == i,
            forall|a: int, b: int| 0 <= a <= b < r.len() ==> r[a] >= r[b],
            r@.to_multiset() == v@.take(i as int).to_multiset(),
        decreases v.len() - i,
    {
        let x: u64 = v[i];
        let mut p: usize = 0;
        while p < r.len() && r[p] >= x
            invariant
                p <= r.len(),
                forall|a: int| 0 <= a < p ==> r[a] >= x,
            decreases r.len() - p,
        {
            p += 1;
        }
        let ghost before = r@;
        r.insert(p, x);
        proof {
            vstd::seq_lib::to_multiset_insert(before, p as int, x);
            vstd::seq_lib::to_multiset_build(v@.take(i as int), x);
            assert(v@.take(i + 1) =~= v@.take(i as int).push(x));
        }
        i += 1;
    }
    proof {
        assert(v@.take(v.len() as int) =~= v@);
        v@.lemma_sort_by_ensures(descends());
        vstd::seq_lib::lemma_sorted_unique(r@, descending(v@), descends());
    }
    r
}

/// Sum of a list of counts.
pub open spec fn total(s: Seq<u64>) -> int
    decreases s.len(),
{
    if s.len() == 0 {
        0
    } else {
        total(s.drop_last()) + s.last()
    }
}

pub proof fn lemma_total_prefix(s: Seq<u64>, n: int)
    requires
        0 <= n <= s.len(),
    ensures
        0 <= total(s.take(n)) <= total(s),
    decreases s.len(),
{
    if n == s.len() {
        assert(s.take(n) =~= s);
        if s.len() > 0 {
            lemma_total_prefix(s.drop_last(), s.len() - 1);
            assert(s.drop_last().take(s.len() - 1) =~= s.drop_last());
        }
    } else {
        lemma_total_prefix(s.drop_last(), n);
        assert(s.drop_last().take(n) =~= s.take(n));
    }
}

proof fn lemma_total_remove(s: Seq<u64>, i: int)
    requires
        0 <= i < s.len(),
    ensures
        total(s) == total(s.remove(i)) + s[i],
    decreases s.len(),
{
    if i == s.len() - 1 {
        assert(s.remove(i) =~= s.drop_last());
    } else {
        lemma_total_remove(s.drop_last(), i);
        assert(s.remove(i).drop_last() =~= s.drop_last().remove(i));
        assert(s.remove(i).last() == s.last());
    }
}

/// Sums do not depend on order.
pub proof fn lemma_total_permuted(a: Seq<u64>, b: Seq<u64>)
    requires
        a.to_multiset() == b.to_multiset(),
    ensures
        total(a) == total(b),
    decreases a.len(),
{
    vstd::seq_lib::to_multiset_len(a);
    vstd::seq_lib::to_multiset_len(b);
    if a.len() > 0 {
        let x = a.last();
        vstd::seq_lib::to_multiset_contains(a, x);
        vstd::seq_lib::to_multiset_contains(b, x);
        assert(a.contains(x));
        assert(b.contains(x));
        let j = choose|j: int| 0 <= j < b.len() && b[j] == x;
        vstd::seq_lib::to_multiset_remove(a, a.len() - 1);
        vstd::seq_lib::to_multiset_remove(b, j);
        assert(a.remove(a.len() - 1) =~= a.drop_last());
        lemma_total_permuted(a.drop_last(), b.remove(j));
        lemma_total_remove(b, j);
    }
}

/// Sum of the first `n` counts, or of all where there are fewer.
pub fn sum_first(v: &[u64], n: usize) -> (s: u128)
    ensures
        s == total(v@.take(if n <= v.len() {
            n as int
        } else {
            v.len() as int
        })),
        s <= v.len() * u64::MAX,
{
    let stop: usize = if n <= v.len() {
        n
    } else {
        v.len()
    };
    let mut s: u128 = 0;
    let mut i: usize = 0;
    while i < stop
        invariant
            i <= stop <= v.len(),
            s == total(v@.take(i as int)),
            s <= i * u64::MAX,
        decreases stop - i,
    {
        assert(v@.take(i + 1).drop_last() =~= v@.take(i as int));
        assert(i * u64::MAX + u64::MAX == (i + 1) * u64::MAX) by (nonlinear_arith);
        assert((i + 1) * u64::MAX <= u64::MAX * u64::MAX) by (nonlinear_arith)
            requires
                i + 1 <= u64::MAX,
        ;
        s = s + v[i] as u128;
        i += 1;
    }
    assert(stop * u64::MAX <= v.len() * u64::MAX) by (nonlinear_arith)
        requires
            stop <= v.len(),
    ;
    s
}

/// A sum of counts grows by each count.
pub proof fn law_counts_add_up(s: Seq<u64>, x: u64)
    ensures
        total(Seq::empty()) == 0,
        total(s.push(x)) == total(s) + x,
{
    assert(s.push(x).drop_last() =~= s);
}

/// In descending order the values are the same, and none is below a later one.
pub proof fn law_descending_is_the_same_values(s: Seq<u64>, i: int, j: int)
    requires
        0 <= i <= j < s.len(),
    ensures
        descending(s).len() == s.len(),
        descending(s)[i] >= descending(s)[j],
        descending(s).to_multiset() =~= s.to_multiset(),
{
    s.lemma_sort_by_ensures(descends());
    vstd::seq_lib::to_multiset_len(s);
    vstd::seq_lib::to_multiset_len(descending(s));
    if i < j {
        assert(descends()(descending(s)[i], descending(s)[j]));
    }
}

} // verus!
