//! A set of ids kept in ascending order.
use vstd::prelude::*;

verus! {

/// A set of ids.
pub struct IdSet {
    pub ids: Vec<u64>,
}

impl IdSet {
    /// Ascending, nothing twice.
    pub open spec fn wf(self) -> bool {
        forall|i: int, j: int|
            0 <= i < j < self.ids.len() ==> (#[trigger] self.ids[i]) < (#[trigger] self.ids[j])
    }

    pub open spec fn has(self, id: u64) -> bool {
        self.ids@.contains(id)
    }

    pub fn new() -> (s: Self)
        ensures
            s.wf(),
            s.ids@ =~= Seq::<u64>::empty(),
    {
        IdSet { ids: Vec::new() }
    }

    pub fn contains(&self, id: u64) -> (b: bool)
        ensures
            b == self.has(id),
    {
        let mut i: usize = 0;
        while i < self.ids.len()
            invariant
                i <= self.ids.len(),
                forall|x: int| 0 <= x < i ==> #[trigger] self.ids[x] != id,
            decreases self.ids.len() - i,
        {
            if self.ids[i] == id {
                assert(self.ids@[i as int] == id);
                return true;
            }
            i += 1;
        }
        false
    }

    /// Adds an id; whether it is new.
    pub fn insert(&mut self, id: u64) -> (fresh: bool)
        requires
            old(self).wf(),
        ensures
            final(self).wf(),
            fresh == !old(self).has(id),
            forall|x: u64| #[trigger] final(self).has(x) <==> old(self).has(x) || x == id,
            !fresh ==> *final(self) == *old(self),
    {
        let mut p: usize = 0;
        while p < self.ids.len() && self.ids[p] < id
            invariant
                p <= self.ids.len(),
                forall|x: int| 0 <= x < p ==> #[trigger] self.ids[x] < id,
            decreases self.ids.len() - p,
        {
            p += 1;
        }
        if p < self.ids.len() && self.ids[p] == id {
            assert(self.ids@[p as int] == id);
            return false;
        }
        let ghost before = self.ids@;
        proof {
            if before.contains(id) {
                let j = choose|j: int| 0 <= j < before.len() && before[j] == id;
                if j < p {
                } else if p < j {
                    assert(self.ids[p as int] < self.ids[j]);
                }
                assert(false);
            }
        }
        self.ids.insert(p, id);
        proof {
            let after = self.ids@;
            assert(after =~= before.insert(p as int, id));
            assert forall|i: int, j: int| 0 <= i < j < after.len() implies (#[trigger] after[i]) < (
            #[trigger] after[j]) by {
                let a = if i < p {
                    i
                } else {
                    i - 1
                };
                let b = if j < p {
                    j
                } else {
                    j - 1
                };
                if i != p && j != p {
                    assert(before[a] < before[b]);
                } else if i == p {
                    if p < before.len() {
                        assert(before[p as int] > id);
                        if b != p {
                            assert(before[p as int] < before[b]);
                        }
                    }
                } else {
                    assert(before[a] < id);
                }
            }
            assert forall|x: u64| #[trigger] self.has(x) <==> before.contains(x) || x == id by {
                if after.contains(x) && x != id {
                    let j = choose|j: int| 0 <= j < after.len() && after[j] == x;
                    assert(j != p);
                    assert(before[if j < p {
                        j
                    } else {
                        j - 1
                    }] == x);
                }
                if before.contains(x) {
                    let j = choose|j: int| 0 <= j < before.len() && before[j] == x;
                    assert(after[if j < p {
                        j
                    } else {
                        j + 1
                    }] == x);
                }
                if x == id {
                    assert(after[p as int] == x);
                }
            }
        }
        true
    }

    /// Removes an id; whether it was there.
    pub fn remove(&mut self, id: u64) -> (found: bool)
        requires
            old(self).wf(),
        ensures
            final(self).wf(),
            found == old(self).has(id),
            forall|x: u64| #[trigger] final(self).has(x) <==> old(self).has(x) && x != id,
    {
        let mut i: usize = 0;
        while i < self.ids.len()
            invariant
                self.wf(),
                *self == *old(self),
                i <= self.ids.len(),
                forall|x: int| 0 <= x < i ==> #[trigger] self.ids[x] != id,
            decreases self.ids.len() - i,
        {
            if self.ids[i] == id {
                let ghost before = self.ids@;
                self.ids.remove(i);
                proof {
                    let after = self.ids@;
                    assert(after =~= before.remove(i as int));
                    assert forall|a: int, b: int| 0 <= a < b < after.len() implies (
                    #[trigger] after[a]) < (#[trigger] after[b]) by {
                        let a1 = if a < i {
                            a
                        } else {
                            a + 1
                        };
                        let b1 = if b < i {
                            b
                        } else {
                            b + 1
                        };
                        assert(before[a1] < before[b1]);
                    }
                    assert(before[i as int] == id);
                    assert forall|x: u64| #[trigger] self.has(x) <==> before.contains(x) && x != id by {
                        if after.contains(x) {
                            let j = choose|j: int| 0 <= j < after.len() && after[j] == x;
                            let j1 = if j < i {
                                j
                            } else {
                                j + 1
                            };
                            assert(before[j1] == x);
                            if j1 < i {
                                assert(before[j1] < before[i as int]);
                            } else {
                                assert(before[i as int] < before[j1]);
                            }
                        }
                        if before.contains(x) && x != id {
                            let j = choose|j: int| 0 <= j < before.len() && before[j] == x;
                            assert(after[if j < i {
                                j
                            } else {
                                j - 1
                            }] == x);
                        }
                    }
                }
                return true;
            }
            i += 1;
        }
        false
    }

    /// All ids, ascending.
    pub fn listed(&self) -> (v: Vec<u64>)
        ensures
            v@ =~= self.ids@,
    {
        let v: Vec<u64> = self.ids.clone();
        proof {
            assert(v@ =~= self.ids@);
        }
        v
    }
}

/// Two sets with the same members are the same list.
pub proof fn law_members_fix_the_list(a: IdSet, b: IdSet)
    requires
        a.wf(),
        b.wf(),
        forall|x: u64| #[trigger] a.has(x) <==> b.has(x),
    ensures
        a.ids@ =~= b.ids@,
{
    assert forall|x: u64| #[trigger] a.ids@.contains(x) <==> b.ids@.contains(x) by {
        assert(a.has(x) <==> b.has(x));
    }
    lemma_same_lists(a.ids@, b.ids@);
}

proof fn lemma_same_lists(a: Seq<u64>, b: Seq<u64>)
    requires
        forall|i: int, j: int| 0 <= i < j < a.len() ==> (#[trigger] a[i]) < (#[trigger] a[j]),
        forall|i: int, j: int| 0 <= i < j < b.len() ==> (#[trigger] b[i]) < (#[trigger] b[j]),
        forall|x: u64| #[trigger] a.contains(x) <==> b.contains(x),
    ensures
        a =~= b,
    decreases a.len(),
{
    if a.len() == 0 {
        if b.len() > 0 {
            assert(b.contains(b[0]));
            assert(a.contains(b[0]));
        }
    } else {
        assert(a.contains(a.last()));
        assert(b.contains(a.last()));
        let j = choose|j: int| 0 <= j < b.len() && b[j] == a.last();
        assert(b.contains(b.last()));
        assert(a.contains(b.last()));
        let i = choose|i: int| 0 <= i < a.len() && a[i] == b.last();
        if j < b.len() - 1 {
            assert(b[j] < b[b.len() - 1]);
            if i < a.len() - 1 {
                assert(a[i] < a[a.len() - 1]);
            }
        }
        let a1 = a.drop_last();
        let b1 = b.drop_last();
        assert forall|x: u64| #[trigger] a1.contains(x) <==> b1.contains(x) by {
            if a1.contains(x) {
                let k = choose|k: int| 0 <= k < a1.len() && a1[k] == x;
                assert(a[k] == x);
                assert(a[k] < a[a.len() - 1]);
                assert(a.contains(x));
                assert(b.contains(x));
                let m = choose|m: int| 0 <= m < b.len() && b[m] == x;
                assert(b1[m] == x);
            }
            if b1.contains(x) {
                let k = choose|k: int| 0 <= k < b1.len() && b1[k] == x;
                assert(b[k] == x);
                assert(b[k] < b[b.len() - 1]);
                assert(b.contains(x));
                assert(a.contains(x));
                let m = choose|m: int| 0 <= m < a.len() && a[m] == x;
                assert(a1[m] == x);
            }
        }
        lemma_same_lists(a1, b1);
        assert(a =~= a1.push(a.last()));
        assert(b =~= b1.push(b.last()));
    }
}

} // verus!
