//! A least-recently-used table of costs, kept by the `lru` crate.
use vstd::prelude::*;

verus! {

/// `lru::LruCache`.
#[verifier::external_type_specification]
#[verifier::external_body]
#[verifier::reject_recursive_types(K)]
#[verifier::reject_recursive_types(V)]
#[verifier::reject_recursive_types(S)]
pub struct ExLruCache<K, V, S>(lru::LruCache<K, V, S>);

/// The hasher of `lru::LruCache`.
#[verifier::external_type_specification]
#[verifier::external_body]
pub struct ExDefaultHasher(lru::DefaultHasher);

/// What a table holds: keys with their costs, the most recently used first.
pub uninterp spec fn lru_entries(c: lru::LruCache<u64, u64>) -> Seq<(u64, u64)>;

/// How many entries a table was made for.
pub uninterp spec fn lru_capacity(c: lru::LruCache<u64, u64>) -> nat;

/// The place of a key.
pub open spec fn place(s: Seq<(u64, u64)>, k: u64) -> Option<int>
    decreases s.len(),
{
    if s.len() == 0 {
        None
    } else if s[0].0 == k {
        Some(0)
    } else {
        match place(s.drop_first(), k) {
            Some(i) => Some(i + 1),
            None => None,
        }
    }
}

/// `x` in front of a sequence.
pub open spec fn fronted(x: (u64, u64), s: Seq<(u64, u64)>) -> Seq<(u64, u64)> {
    seq![x] + s
}

/// What a table holds after `k` was pushed, and what it gave back.
pub open spec fn pushed(s: Seq<(u64, u64)>, capacity: nat, k: u64, v: u64) -> (
    Seq<(u64, u64)>,
    Option<(u64, u64)>,
) {
    match place(s, k) {
        Some(i) => (fronted((k, v), s.remove(i)), Some((k, s[i].1))),
        None => if s.len() == capacity {
            (fronted((k, v), s.drop_last()), Some(s.last()))
        } else {
            (fronted((k, v), s), None)
        },
    }
}

/// An empty table: `lru::LruCache::new`. The bound keeps the table's allocation
/// within what can be asked for.
#[verifier::external_body]
pub(crate) fn lru_new(capacity: usize) -> (c: lru::LruCache<u64, u64>)
    requires
        0 < capacity <= usize::MAX / 128,
    ensures
        lru_entries(c) == Seq::<(u64, u64)>::empty(),
        lru_capacity(c) == capacity,
{
    lru::LruCache::new(std::num::NonZeroUsize::new(capacity).unwrap())
}

/// Puts a key in front: `lru::LruCache::push`. A key that is there gets the new
/// value, and the old one is given back; otherwise a full table gives its least
/// recently used entry back.
#[verifier::external_body]
pub(crate) fn lru_push(c: &mut lru::LruCache<u64, u64>, k: u64, v: u64) -> (r: Option<(u64, u64)>)
    ensures
        lru_capacity(*final(c)) == lru_capacity(*old(c)),
        (lru_entries(*final(c)), r) == pushed(lru_entries(*old(c)), lru_capacity(*old(c)), k, v),
{
    c.push(k, v)
}

/// Looks a key up and puts it in front: `lru::LruCache::get`.
#[verifier::external_body]
pub(crate) fn lru_get(c: &mut lru::LruCache<u64, u64>, k: u64) -> (r: Option<u64>)
    ensures
        lru_capacity(*final(c)) == lru_capacity(*old(c)),
        match place(lru_entries(*old(c)), k) {
            Some(i) => r == Some(lru_entries(*old(c))[i].1) && lru_entries(*final(c)) == fronted(
                lru_entries(*old(c))[i],
                lru_entries(*old(c)).remove(i),
            ),
            None => r is None && lru_entries(*final(c)) == lru_entries(*old(c)),
        },
{
    c.get(&k).copied()
}

/// Takes the least recently used entry: `lru::LruCache::pop_lru`.
#[verifier::external_body]
pub(crate) fn lru_pop(c: &mut lru::LruCache<u64, u64>) -> (r: Option<(u64, u64)>)
    ensures
        lru_capacity(*final(c)) == lru_capacity(*old(c)),
        if lru_entries(*old(c)).len() == 0 {
            r is None && lru_entries(*final(c)) == lru_entries(*old(c))
        } else {
            r == Some(lru_entries(*old(c)).last()) && lru_entries(*final(c)) == lru_entries(
                *old(c),
            ).drop_last()
        },
{
    c.pop_lru()
}

/// The number of entries: `lru::LruCache::len`.
#[verifier::external_body]
pub(crate) fn lru_len(c: &lru::LruCache<u64, u64>) -> (n: usize)
    ensures
        n == lru_entries(*c).len(),
{
    c.len()
}

/// Drops every entry: `lru::LruCache::clear`.
#[verifier::external_body]
pub(crate) fn lru_clear(c: &mut lru::LruCache<u64, u64>)
    ensures
        lru_capacity(*final(c)) == lru_capacity(*old(c)),
        lru_entries(*final(c)) == Seq::<(u64, u64)>::empty(),
{
    c.clear()
}

// ------------------------------------------------------------------ cost budget

pub open spec fn minus(a: u64, b: u64) -> u64 {
    if a >= b {
        (a - b) as u64
    } else {
        0
    }
}

pub open spec fn plus(a: u64, b: u64) -> u64 {
    if a + b <= u64::MAX {
        (a + b) as u64
    } else {
        u64::MAX
    }
}

/// Entries and bytes after the least recently used ones were dropped while the
/// bytes are over the budget and more than one entry is left.
pub open spec fn trimmed_to(s: Seq<(u64, u64)>, bytes: u64, budget: u64) -> (Seq<(u64, u64)>, u64)
    decreases s.len(),
{
    if bytes > budget && s.len() > 1 {
        trimmed_to(s.drop_last(), minus(bytes, s.last().1), budget)
    } else {
        (s, bytes)
    }
}

/// Sum of all costs.
pub open spec fn cost_total(s: Seq<(u64, u64)>) -> int
    decreases s.len(),
{
    if s.len() == 0 {
        0
    } else {
        cost_total(s.drop_last()) + s.last().1
    }
}

/// No key twice.
pub open spec fn keys_distinct(s: Seq<(u64, u64)>) -> bool {
    forall|i: int, j: int| 0 <= i < j < s.len() ==> (#[trigger] s[i]).0 != (#[trigger] s[j]).0
}

/// A table bounded by entries, with a running estimate of held bytes that is kept
/// to a budget. The newest entry always stays.
pub struct OvCache {
    pub lru: lru::LruCache<u64, u64>,
    pub bytes: u64,
    pub budget: u64,
}

impl OvCache {
    pub open spec fn entries(self) -> Seq<(u64, u64)> {
        lru_entries(self.lru)
    }

    pub open spec fn capacity(self) -> nat {
        lru_capacity(self.lru)
    }

    pub open spec fn wf(self) -> bool {
        &&& self.capacity() > 0
        &&& self.entries().len() <= self.capacity()
        &&& keys_distinct(self.entries())
        &&& self.bytes <= self.budget || self.entries().len() <= 1
        &&& self.bytes <= cost_total(self.entries())
    }

    pub fn new(capacity: usize, budget: u64) -> (c: OvCache)
        requires
            0 < capacity <= usize::MAX / 128,
        ensures
            c.wf(),
            c.entries() == Seq::<(u64, u64)>::empty(),
            c.capacity() == capacity,
            c.bytes == 0,
            c.budget == budget,
    {
        OvCache { lru: lru_new(capacity), bytes: 0, budget }
    }

    /// Looks a key up, putting it in front.
    pub fn get(&mut self, k: u64) -> (r: Option<u64>)
        requires
            old(self).wf(),
        ensures
            final(self).wf(),
            final(self).bytes == old(self).bytes,
            final(self).budget == old(self).budget,
            final(self).capacity() == old(self).capacity(),
            match place(old(self).entries(), k) {
                Some(i) => r == Some(old(self).entries()[i].1) && final(self).entries() == fronted(
                    old(self).entries()[i],
                    old(self).entries().remove(i),
                ),
                None => r is None && final(self).entries() == old(self).entries(),
            },
    {
        let ghost s = self.entries();
        let r: Option<u64> = lru_get(&mut self.lru, k);
        proof {
            lemma_place(s, k);
            match place(s, k) {
                Some(i) => {
                    lemma_fronted_distinct(s[i], s.remove(i), s, i);
                    lemma_cost_remove(s, i);
                    lemma_cost_fronted(s[i], s.remove(i));
                },
                None => {},
            }
        }
        r
    }

    /// Inserts a key in front, then drops the least recently used entries while the
    /// bytes are over the budget. Returns the keys that left, in order.
    pub fn insert(&mut self, k: u64, cost: u64) -> (left: Vec<u64>)
        requires
            old(self).wf(),
        ensures
            final(self).wf(),
            final(self).budget == old(self).budget,
            final(self).capacity() == old(self).capacity(),
            ({
                let (after, given_back) = pushed(old(self).entries(), old(self).capacity(), k, cost);
                let bytes = match given_back {
                    Some(e) => minus(old(self).bytes, e.1),
                    None => old(self).bytes,
                };
                (final(self).entries(), final(self).bytes) == trimmed_to(
                    after,
                    plus(bytes, cost),
                    old(self).budget,
                )
            }),
            final(self).entries().len() > 0,
            final(self).entries()[0] == (k, cost),
            forall|x: u64|
                #[trigger] left@.contains(x) <==> x != k && place(old(self).entries(), x) is Some
                    && place(final(self).entries(), x) is None,
    {
        let ghost s = self.entries();
        let ghost cap = self.capacity();
        let mut left: Vec<u64> = Vec::new();
        let given_back: Option<(u64, u64)> = lru_push(&mut self.lru, k, cost);
        let ghost after = self.entries();
        proof {
            lemma_pushed(s, cap, k, cost);
        }
        match given_back {
            Some(e) => {
                self.bytes = self.bytes.saturating_sub(e.1);
                if e.0 != k {
                    left.push(e.0);
                }
            },
            None => {},
        }
        let ghost mid_bytes = self.bytes;
        self.bytes = self.bytes.saturating_add(cost);
        let ghost target = trimmed_to(after, self.bytes, self.budget);
        proof {
            lemma_push_bytes(s, cap, k, cost, old(self).bytes);
            assert forall|x: u64| #[trigger] left@.contains(x) <==> x != k && place(s, x) is Some
                && place(after, x) is None by {
                if left@.len() > 0 {
                    assert(left@[0] == (given_back->0).0);
                }
            }
        }
        while self.bytes > self.budget && lru_len(&self.lru) > 1
            invariant
                self.budget == old(self).budget,
                self.capacity() == cap,
                cap > 0,
                after.len() > 0,
                after[0] == (k, cost),
                keys_distinct(after),
                after.len() <= cap,
                1 <= self.entries().len() <= after.len(),
                self.entries() =~= after.take(self.entries().len() as int),
                self.bytes <= cost_total(self.entries()),
                target == trimmed_to(self.entries(), self.bytes, self.budget),
                forall|x: u64|
                    #[trigger] left@.contains(x) <==> x != k && place(s, x) is Some && place(
                        self.entries(),
                        x,
                    ) is None,
                forall|x: u64| x != k && #[trigger] place(after, x) is Some ==> place(s, x) is Some,
            decreases self.entries().len(),
        {
            let ghost before = self.entries();
            let ghost before_left = left@;
            let e: Option<(u64, u64)> = lru_pop(&mut self.lru);
            proof {
                assert(before.drop_last() =~= after.take(before.len() - 1));
                lemma_place_drop_last(before);
                lemma_last_of_take(after, before.len() as int);
                lemma_cost_nonneg(before.drop_last());
            }
            match e {
                Some(x) => {
                    self.bytes = self.bytes.saturating_sub(x.1);
                    left.push(x.0);
                    proof {
                        assert(x == before.last());
                        assert forall|y: u64| #[trigger] left@.contains(y) <==> y != k && place(
                            s,
                            y,
                        ) is Some && place(self.entries(), y) is None by {
                            if before_left.contains(y) {
                                let j = choose|j: int|
                                    0 <= j < before_left.len() && before_left[j] == y;
                                assert(left@[j] == y);
                            }
                            if y == x.0 {
                                assert(left@[left@.len() - 1] == y);
                            }
                            if left@.contains(y) && y != x.0 {
                                let j = choose|j: int| 0 <= j < left@.len() && left@[j] == y;
                                assert(before_left[j] == y);
                            }
                        }
                    }
                },
                None => {},
            }
        }
        left
    }

    /// Drops everything.
    pub fn clear(&mut self)
        requires
            old(self).wf(),
        ensures
            final(self).wf(),
            final(self).entries() == Seq::<(u64, u64)>::empty(),
            final(self).bytes == 0,
            final(self).budget == old(self).budget,
            final(self).capacity() == old(self).capacity(),
    {
        lru_clear(&mut self.lru);
        self.bytes = 0;
    }

    /// Entries held and their estimated bytes.
    pub fn held(&self) -> (r: (usize, u64))
        ensures
            r.0 == self.entries().len(),
            r.1 == self.bytes,
    {
        (lru_len(&self.lru), self.bytes)
    }
}

proof fn lemma_place(s: Seq<(u64, u64)>, k: u64)
    ensures
        match place(s, k) {
            Some(i) => 0 <= i < s.len() && s[i].0 == k && forall|j: int|
                0 <= j < i ==> (#[trigger] s[j]).0 != k,
            None => forall|j: int| 0 <= j < s.len() ==> (#[trigger] s[j]).0 != k,
        },
    decreases s.len(),
{
    if s.len() > 0 && s[0].0 != k {
        lemma_place(s.drop_first(), k);
        let t = s.drop_first();
        assert forall|j: int| 1 <= j < s.len() implies s[j] == t[j - 1] by {}
        match place(t, k) {
            Some(i) => {
                assert forall|j: int| 0 <= j < i + 1 implies (#[trigger] s[j]).0 != k by {
                    if j > 0 {
                        assert(t[j - 1].0 != k);
                    }
                }
            },
            None => {
                assert forall|j: int| 0 <= j < s.len() implies (#[trigger] s[j]).0 != k by {
                    if j > 0 {
                        assert(t[j - 1].0 != k);
                    }
                }
            },
        }
    }
}


proof fn lemma_fronted_distinct(x: (u64, u64), rest: Seq<(u64, u64)>, s: Seq<(u64, u64)>, i: int)
    requires
        keys_distinct(s),
        0 <= i < s.len(),
        x.0 == s[i].0,
        rest == s.remove(i),
    ensures
        keys_distinct(fronted(x, rest)),
        fronted(x, rest).len() == s.len(),
{
    let f = fronted(x, rest);
    assert forall|a: int, b: int| 0 <= a < b < f.len() implies (#[trigger] f[a]).0 != (
    #[trigger] f[b]).0 by {
        let b1 = if b - 1 < i {
            b - 1
        } else {
            b
        };
        assert(f[b] == s[b1]);
        if a == 0 {
            if b1 < i {
                assert(s[b1].0 != s[i].0);
            } else {
                assert(s[i].0 != s[b1].0);
            }
        } else {
            let a1 = if a - 1 < i {
                a - 1
            } else {
                a
            };
            assert(f[a] == s[a1]);
            assert(s[a1].0 != s[b1].0);
        }
    }
}

proof fn lemma_cost_nonneg(s: Seq<(u64, u64)>)
    ensures
        cost_total(s) >= 0,
    decreases s.len(),
{
    if s.len() > 0 {
        lemma_cost_nonneg(s.drop_last());
    }
}

proof fn lemma_cost_remove(s: Seq<(u64, u64)>, i: int)
    requires
        0 <= i < s.len(),
    ensures
        cost_total(s.remove(i)) == cost_total(s) - s[i].1,
    decreases s.len(),
{
    if i == s.len() - 1 {
        assert(s.remove(i) =~= s.drop_last());
    } else {
        assert(s.remove(i).drop_last() =~= s.drop_last().remove(i));
        assert(s.remove(i).last() == s.last());
        lemma_cost_remove(s.drop_last(), i);
    }
}

proof fn lemma_cost_fronted(x: (u64, u64), s: Seq<(u64, u64)>)
    ensures
        cost_total(fronted(x, s)) == cost_total(s) + x.1,
    decreases s.len(),
{
    let f = fronted(x, s);
    if s.len() == 0 {
        assert(f.drop_last() =~= Seq::<(u64, u64)>::empty());
        assert(cost_total(Seq::<(u64, u64)>::empty()) == 0);
        assert(s =~= Seq::<(u64, u64)>::empty());
    } else {
        assert(f.drop_last() =~= fronted(x, s.drop_last()));
        assert(f.last() == s.last());
        lemma_cost_fronted(x, s.drop_last());
    }
}

proof fn lemma_pushed(s: Seq<(u64, u64)>, cap: nat, k: u64, v: u64)
    requires
        cap > 0,
        s.len() <= cap,
        keys_distinct(s),
    ensures
        ({
            let (after, given) = pushed(s, cap, k, v);
            &&& after.len() > 0
            &&& after[0] == (k, v)
            &&& after.len() <= cap
            &&& keys_distinct(after)
            &&& forall|x: u64| x != k && #[trigger] place(after, x) is Some ==> place(s, x) is Some
            &&& forall|x: u64|
                x != k && #[trigger] place(s, x) is Some && place(after, x) is None ==> given
                    == Some((x, (given->0).1)) && given is Some
            &&& given matches Some(e) ==> place(s, e.0) is Some && (e.0 != k ==> place(
                after,
                e.0,
            ) is None)
            &&& place(after, k) is Some
        }),
{
    let (after, given) = pushed(s, cap, k, v);
    lemma_place(s, k);
    lemma_place(after, k);
    match place(s, k) {
        Some(i) => {
            lemma_fronted_distinct((k, v), s.remove(i), s, i);
            assert forall|x: u64| x != k implies (#[trigger] place(after, x) is Some <==> place(
                s,
                x,
            ) is Some) by {
                lemma_place(after, x);
                lemma_place(s, x);
                match place(after, x) {
                    Some(a) => {
                        let a1 = if a - 1 < i {
                            a - 1
                        } else {
                            a
                        };
                        assert(after[a] == s[a1]);
                    },
                    None => {
                        match place(s, x) {
                            Some(b) => {
                                let b1 = if b < i {
                                    b + 1
                                } else {
                                    b
                                };
                                assert(after[b1] == s[b]);
                            },
                            None => {},
                        }
                    },
                }
            }
        },
        None => {
            let rest = if s.len() == cap {
                s.drop_last()
            } else {
                s
            };
            assert(after == fronted((k, v), rest));
            assert forall|a: int, b: int| 0 <= a < b < after.len() implies (#[trigger] after[a]).0
                != (#[trigger] after[b]).0 by {
                assert(after[b] == s[b - 1]);
                if a > 0 {
                    assert(after[a] == s[a - 1]);
                }
            }
            assert forall|x: u64| x != k && #[trigger] place(after, x) is Some implies place(
                s,
                x,
            ) is Some by {
                lemma_place(after, x);
                lemma_place(s, x);
                let a = place(after, x)->0;
                assert(after[a] == s[a - 1]);
            }
            assert forall|x: u64|
                x != k && #[trigger] place(s, x) is Some && place(after, x) is None implies given
                == Some((x, (given->0).1)) && given is Some by {
                lemma_place(after, x);
                lemma_place(s, x);
                let b = place(s, x)->0;
                if b < rest.len() {
                    assert(after[b + 1] == s[b]);
                }
            }
            match given {
                Some(e) => {
                    lemma_place(s, e.0);
                    lemma_place(after, e.0);
                    assert(s[s.len() - 1] == e);
                    match place(after, e.0) {
                        Some(a) => {
                            if a > 0 {
                                assert(after[a] == s[a - 1]);
                                assert(s[a - 1].0 != s[s.len() - 1].0);
                            }
                        },
                        None => {},
                    }
                },
                None => {},
            }
        },
    }
}

proof fn lemma_push_bytes(s: Seq<(u64, u64)>, cap: nat, k: u64, v: u64, bytes: u64)
    requires
        cap > 0,
        s.len() <= cap,
        bytes <= cost_total(s),
    ensures
        ({
            let (after, given) = pushed(s, cap, k, v);
            let mid = match given {
                Some(e) => minus(bytes, e.1),
                None => bytes,
            };
            &&& plus(mid, v) <= cost_total(after)
            &&& bytes == cost_total(s) && cost_total(s) + v <= u64::MAX ==> plus(mid, v)
                == cost_total(after)
        }),
{
    let (after, given) = pushed(s, cap, k, v);
    lemma_place(s, k);
    match place(s, k) {
        Some(i) => {
            lemma_cost_remove(s, i);
            lemma_cost_nonneg(s.remove(i));
            lemma_cost_fronted((k, v), s.remove(i));
        },
        None => {
            if s.len() == cap {
                lemma_cost_nonneg(s.drop_last());
                lemma_cost_fronted((k, v), s.drop_last());
            } else {
                lemma_cost_nonneg(s);
                lemma_cost_fronted((k, v), s);
            }
        },
    }
}

proof fn lemma_place_drop_last(s: Seq<(u64, u64)>)
    requires
        s.len() > 0,
        keys_distinct(s),
    ensures
        forall|x: u64|
            #[trigger] place(s.drop_last(), x) is Some <==> place(s, x) is Some && x != s.last().0,
{
    let d = s.drop_last();
    assert forall|x: u64| #[trigger] place(d, x) is Some <==> place(s, x) is Some && x
        != s.last().0 by {
        lemma_place(d, x);
        lemma_place(s, x);
        match place(d, x) {
            Some(i) => {
                assert(s[i] == d[i]);
                assert(s[i].0 != s[s.len() - 1].0);
            },
            None => {
                match place(s, x) {
                    Some(i) => {
                        if i < d.len() {
                            assert(d[i] == s[i]);
                        }
                    },
                    None => {},
                }
            },
        }
    }
}

proof fn lemma_last_of_take(s: Seq<(u64, u64)>, n: int)
    requires
        1 < n <= s.len(),
        keys_distinct(s),
    ensures
        keys_distinct(s.take(n)),
        s.take(n).last().0 != s[0].0,
        place(s.take(n), s[0].0) is Some,
        place(s.take(n), s.take(n).last().0) is Some,
        place(s, s.take(n).last().0) is Some,
{
    let t = s.take(n);
    assert(t[n - 1] == s[n - 1]);
    assert(s[0].0 != s[n - 1].0);
    lemma_place(t, s[0].0);
    lemma_place(t, t.last().0);
    lemma_place(s, t.last().0);
    assert(t[0] == s[0]);
}

/// As long as the costs add up to what a counter holds, the estimate is their sum.
pub proof fn law_estimate_is_the_sum(
    s: Seq<(u64, u64)>,
    capacity: nat,
    k: u64,
    cost: u64,
    budget: u64,
)
    requires
        capacity > 0,
        s.len() <= capacity,
        cost_total(s) + cost <= u64::MAX,
    ensures
        ({
            let (after, given_back) = pushed(s, capacity, k, cost);
            let bytes = match given_back {
                Some(e) => minus(cost_total(s) as u64, e.1),
                None => cost_total(s) as u64,
            };
            let (t, b) = trimmed_to(after, plus(bytes, cost), budget);
            b == cost_total(t)
        }),
{
    lemma_cost_nonneg(s);
    lemma_push_bytes(s, capacity, k, cost, cost_total(s) as u64);
    let (after, given_back) = pushed(s, capacity, k, cost);
    lemma_trim_bytes(after, cost_total(after) as u64, budget);
}

proof fn lemma_trim_bytes(s: Seq<(u64, u64)>, bytes: u64, budget: u64)
    requires
        bytes == cost_total(s),
    ensures
        trimmed_to(s, bytes, budget).1 == cost_total(trimmed_to(s, bytes, budget).0),
    decreases s.len(),
{
    if bytes > budget && s.len() > 1 {
        lemma_cost_nonneg(s.drop_last());
        lemma_trim_bytes(s.drop_last(), minus(bytes, s.last().1), budget);
    }
}

/// After an insertion the estimate is within the budget, or the new entry is alone.
pub proof fn law_budget_is_kept(s: Seq<(u64, u64)>, bytes: u64, budget: u64)
    requires
        s.len() > 0,
    ensures
        ({
            let (t, b) = trimmed_to(s, bytes, budget);
            &&& b <= budget || t.len() == 1
            &&& 1 <= t.len() <= s.len()
            &&& t =~= s.take(t.len() as int)
        }),
    decreases s.len(),
{
    if bytes > budget && s.len() > 1 {
        law_budget_is_kept(s.drop_last(), minus(bytes, s.last().1), budget);
        let (t, b) = trimmed_to(s, bytes, budget);
        assert(s.drop_last().take(t.len() as int) =~= s.take(t.len() as int));
    } else {
        assert(s.take(s.len() as int) =~= s);
    }
}

/// No more leaves than the budget asks for: with one entry more than are left, the
/// costs would exceed it.
pub proof fn law_trimming_stops_at_the_budget(s: Seq<(u64, u64)>, bytes: u64, budget: u64)
    requires
        s.len() > 0,
        bytes == cost_total(s),
    ensures
        ({
            let (t, b) = trimmed_to(s, bytes, budget);
            &&& t =~= s.take(t.len() as int)
            &&& t.len() < s.len() ==> cost_total(s.take(t.len() as int + 1)) > budget
            &&& t.len() > 1 ==> cost_total(t) <= budget
            &&& b == cost_total(t)
        }),
    decreases s.len(),
{
    lemma_trim_bytes(s, bytes, budget);
    if bytes > budget && s.len() > 1 {
        lemma_cost_nonneg(s.drop_last());
        law_trimming_stops_at_the_budget(s.drop_last(), minus(bytes, s.last().1), budget);
        law_budget_is_kept(s.drop_last(), minus(bytes, s.last().1), budget);
        let (t, b) = trimmed_to(s, bytes, budget);
        assert(s.drop_last().take(t.len() as int) =~= s.take(t.len() as int));
        if t.len() + 1 == s.len() {
            assert(s.take(t.len() as int + 1) =~= s);
        } else {
            assert(s.drop_last().take(t.len() as int + 1) =~= s.take(t.len() as int + 1));
        }
    } else {
        assert(s.take(s.len() as int) =~= s);
    }
}

/// The sum of the costs: an entry more adds its own.
pub proof fn law_costs_add_up(s: Seq<(u64, u64)>, x: (u64, u64))
    ensures
        cost_total(Seq::empty()) == 0,
        cost_total(s.push(x)) == cost_total(s) + x.1,
{
    assert(s.push(x).drop_last() =~= s);
}

/// What is inserted stands first. A key that was there gives back its old cost and
/// leaves its old place; at capacity the least recent entry goes; the rest keep their
/// order.
pub proof fn law_insertion_is_the_most_recent(
    s: Seq<(u64, u64)>,
    capacity: nat,
    k: u64,
    v: u64,
    i: int,
)
    requires
        capacity > 0,
        s.len() <= capacity,
        keys_distinct(s),
    ensures
        pushed(s, capacity, k, v).0[0] == (k, v),
        0 <= i < s.len() && s[i].0 == k ==> pushed(s, capacity, k, v) == (
            seq![(k, v)] + s.remove(i),
            Some(s[i]),
        ),
        (forall|j: int| 0 <= j < s.len() ==> (#[trigger] s[j]).0 != k) && s.len() < capacity
            ==> pushed(s, capacity, k, v) == (seq![(k, v)] + s, None::<(u64, u64)>),
        (forall|j: int| 0 <= j < s.len() ==> (#[trigger] s[j]).0 != k) && s.len() == capacity
            ==> pushed(s, capacity, k, v) == (seq![(k, v)] + s.drop_last(), Some(s.last())),
{
    lemma_place(s, k);
    if 0 <= i < s.len() && s[i].0 == k {
        let at = place(s, k)->0;
        if at != i {
            assert(s[at].0 != s[i].0);
        }
    }
}

} // verus!
