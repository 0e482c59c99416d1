//! Snapshots of all layer states, kept by prompt prefix and bounded by bytes.
//!
//! Entries leave in the order in which they came. A hit does not refresh an entry: the
//! stores of all ranks must drop the same keys at the same time, which holds only while
//! reading changes nothing.
use vstd::prelude::*;

use crate::doubles;
use crate::k3::model::{self, LayerState};
use crate::text::{self, chars_of};

verus! {

/// 0.05, the share of free memory that the store may take, as a numerator over 2^57. It
/// is small because this memory competes with the experts' page cache.
pub const PREFIX_CACHE_FRACTION: u64 = 7_205_759_403_792_794;

/// One snapshot.
pub struct PrefixEntry {
    pub key: u64,
    pub states: Vec<LayerState>,
    /// Prompt tokens that the snapshot covers.
    pub covered: usize,
}

/// The numbers of all states.
pub open spec fn views(s: Seq<LayerState>) -> Seq<
    (bool, nat, Seq<u32>, Seq<u32>, Seq<u32>, Seq<u32>),
> {
    s.map_values(|x: LayerState| model::state_view(x))
}

/// Bytes of some states.
pub open spec fn states_bytes(s: Seq<LayerState>) -> nat
    decreases s.len(),
{
    if s.len() == 0 {
        0
    } else {
        states_bytes(s.drop_last()) + model::state_bytes(s.last())
    }
}

/// Bytes of some snapshots.
pub open spec fn total_bytes(e: Seq<PrefixEntry>) -> nat
    decreases e.len(),
{
    if e.len() == 0 {
        0
    } else {
        states_bytes(e[0].states@) + total_bytes(e.skip(1))
    }
}

/// Some snapshot has this key.
pub open spec fn has_key(e: Seq<PrefixEntry>, key: u64) -> bool {
    exists|i: int| 0 <= i < e.len() && (#[trigger] e[i]).key == key
}

/// What stays when `room` bytes may be taken: the oldest snapshots go, and no more of
/// them than needed.
pub open spec fn kept(e: Seq<PrefixEntry>, room: int) -> Seq<PrefixEntry>
    decreases e.len(),
{
    if e.len() == 0 || total_bytes(e) <= room {
        e
    } else {
        kept(e.skip(1), room)
    }
}

/// The snapshots by prefix.
pub struct PrefixStore {
    pub budget: usize,
    pub bytes: usize,
    /// Oldest first.
    pub entries: Vec<PrefixEntry>,
}

/// The store's budget: an explicit value, a setting that is not a number counting as
/// zero, or a share of free memory.
pub open spec fn budget_of(knob: Option<u64>, setting: Option<&str>, available: u64) -> int {
    let wide: int = match knob {
        Some(b) => b as int,
        None => match setting {
            Some(s) => match text::decimal_within(text::trimmed(s@), usize::MAX as nat) {
                Some(n) => n as int,
                None => 0,
            },
            None => doubles::cut(
                doubles::scaled(available as nat, PREFIX_CACHE_FRACTION as nat, 57),
            ) as int,
        },
    };
    if wide <= usize::MAX {
        wide
    } else {
        usize::MAX as int
    }
}

/// Bytes of some states.
fn size_of_states(s: &[LayerState]) -> (n: usize)
    requires
        states_bytes(s@) <= usize::MAX,
    ensures
        n == states_bytes(s@),
{
    let mut n: usize = 0;
    let mut i: usize = 0;
    proof {
        assert(s@.take(0) =~= Seq::<LayerState>::empty());
    }
    while i < s.len()
        invariant
            i <= s.len(),
            n == states_bytes(s@.take(i as int)),
            states_bytes(s@) <= usize::MAX,
        decreases s.len() - i,
    {
        proof {
            assert(s@.take(i + 1).drop_last() =~= s@.take(i as int));
            assert(s@.take(i + 1).last() == s@[i as int]);
            lemma_states_bytes_grow(s@, i + 1);
        }
        n = n + s[i].approx_bytes();
        i += 1;
    }
    proof {
        assert(s@.take(i as int) =~= s@);
    }
    n
}

proof fn lemma_states_bytes_grow(s: Seq<LayerState>, n: int)
    requires
        0 <= n <= s.len(),
    ensures
        states_bytes(s.take(n)) <= states_bytes(s),
    decreases s.len(),
{
    if n == s.len() {
        assert(s.take(n) =~= s);
    } else {
        lemma_states_bytes_grow(s.drop_last(), n);
        assert(s.drop_last().take(n) =~= s.take(n));
    }
}

proof fn lemma_same_views_same_bytes(a: Seq<LayerState>, b: Seq<LayerState>)
    requires
        views(a) == views(b),
    ensures
        states_bytes(a) == states_bytes(b),
    decreases a.len(),
{
    assert(views(a).len() == a.len() && views(b).len() == b.len());
    if a.len() > 0 {
        assert(views(a.drop_last()) =~= views(a).drop_last());
        assert(views(b.drop_last()) =~= views(b).drop_last());
        lemma_same_views_same_bytes(a.drop_last(), b.drop_last());
        assert(views(a).last() == model::state_view(a.last()));
        assert(views(b).last() == model::state_view(b.last()));
        model::lemma_same_bytes(a.last(), b.last());
    }
}

proof fn lemma_total_push(e: Seq<PrefixEntry>, x: PrefixEntry)
    ensures
        total_bytes(e.push(x)) == total_bytes(e) + states_bytes(x.states@),
    decreases e.len(),
{
    let p = e.push(x);
    if e.len() == 0 {
        assert(p.skip(1) =~= e);
        assert(total_bytes(p.skip(1)) == 0);
    } else {
        assert(p.skip(1) =~= e.skip(1).push(x));
        lemma_total_push(e.skip(1), x);
        assert(p[0] == e[0]);
    }
}

/// Copies of some states.
pub fn copy_states(s: &[LayerState]) -> (r: Vec<LayerState>)
    ensures
        views(r@) == views(s@),
{
    let mut r: Vec<LayerState> = Vec::new();
    let mut i: usize = 0;
    while i < s.len()
        invariant
            i <= s.len(),
            r.len() == i,
            forall|j: int|
                0 <= j < i ==> model::state_view(#[trigger] r[j]) == model::state_view(s[j]),
        decreases s.len() - i,
    {
        r.push(s[i].copied());
        i += 1;
    }
    proof {
        assert(views(r@) =~= views(s@));
    }
    r
}

impl PrefixStore {
    /// The bytes are those of the snapshots and within the budget, and no key stands
    /// twice.
    pub open spec fn wf(&self) -> bool {
        &&& self.bytes == total_bytes(self.entries@)
        &&& self.bytes <= self.budget
        &&& forall|i: int, j: int|
            0 <= i < j < self.entries.len() ==> (#[trigger] self.entries[i]).key != (
            #[trigger] self.entries[j]).key
    }

    /// The budget of a store.
    pub fn budget_from(knob: Option<u64>, setting: Option<&str>, available: u64) -> (b: usize)
        ensures
            b == budget_of(knob, setting, available),
    {
        let wide: u64 = match knob {
            Some(b) => b,
            None => match setting {
                Some(s) => {
                    let v: Vec<char> = chars_of(s);
                    let t: Vec<char> = text::trim(v.as_slice());
                    match text::parse_usize(t.as_slice()) {
                        Some(n) => {
                            return n;
                        },
                        None => 0,
                    }
                },
                None => doubles::scale(available, PREFIX_CACHE_FRACTION, 57),
            },
        };
        if wide <= usize::MAX as u64 {
            wide as usize
        } else {
            usize::MAX
        }
    }

    /// An empty store.
    pub fn new(budget: usize) -> (s: PrefixStore)
        ensures
            s.wf(),
            s.budget == budget,
            s.bytes == 0,
            s.entries@ == Seq::<PrefixEntry>::empty(),
    {
        PrefixStore { budget, bytes: 0, entries: Vec::new() }
    }

    /// A budget of zero turns the store off.
    pub fn enabled(&self) -> (b: bool)
        ensures
            b == (self.budget > 0),
    {
        self.budget > 0
    }

    fn find(&self, key: u64) -> (r: Option<usize>)
        ensures
            r is Some <==> has_key(self.entries@, key),
            r is Some ==> r->0 < self.entries.len() && self.entries[r->0 as int].key == key,
    {
        let mut i: usize = 0;
        while i < self.entries.len()
            invariant
                i <= self.entries.len(),
                forall|j: int| 0 <= j < i ==> (#[trigger] self.entries[j]).key != key,
            decreases self.entries.len() - i,
        {
            if self.entries[i].key == key {
                assert(self.entries@[i as int].key == key);
                return Some(i);
            }
            i += 1;
        }
        None
    }

    /// A copy of the snapshot with this key, and the tokens that it covers.
    pub fn get(&self, key: u64) -> (r: Option<(Vec<LayerState>, usize)>)
        ensures
            r is Some <==> has_key(self.entries@, key),
            r is Some ==> exists|i: int|
                0 <= i < self.entries.len() && (#[trigger] self.entries[i]).key == key && views(
                    (r->0).0@,
                ) == views(self.entries[i].states@) && (r->0).1 == self.entries[i].covered,
    {
        match self.find(key) {
            None => None,
            Some(i) => {
                let e: &PrefixEntry = &self.entries[i];
                Some((copy_states(e.states.as_slice()), e.covered))
            },
        }
    }

    /// What a put does: nothing where the store is off, the key is there already or the
    /// snapshot is larger than the whole budget; else the oldest snapshots make room.
    pub open spec fn takes(&self, key: u64, states: Seq<LayerState>) -> bool {
        &&& self.budget > 0
        &&& !has_key(self.entries@, key)
        &&& states_bytes(states) <= self.budget
    }

    /// Keeps a snapshot. A snapshot that is declined is never copied.
    pub fn put(&mut self, key: u64, states: &[LayerState], covered: usize)
        requires
            old(self).wf(),
            states_bytes(states@) <= usize::MAX,
        ensures
            final(self).wf(),
            !old(self).takes(key, states@) ==> *final(self) == *old(self),
            old(self).takes(key, states@) ==> {
                let rest = kept(old(self).entries@, old(self).budget - states_bytes(states@));
                &&& final(self).budget == old(self).budget
                &&& final(self).entries@.len() == rest.len() + 1
                &&& final(self).entries@.drop_last() =~= rest
                &&& final(self).entries@.last().key == key
                &&& final(self).entries@.last().covered == covered
                &&& views(final(self).entries@.last().states@) == views(states@)
            },
    {
        if !self.enabled() {
            return;
        }
        if self.find(key).is_some() {
            return;
        }
        let sz: usize = size_of_states(states);
        if sz > self.budget {
            return;
        }
        let ghost first = self.entries@;
        let ghost room = self.budget - sz;
        while self.bytes > self.budget - sz
            invariant
                self.wf(),
                sz <= self.budget,
                room == self.budget - sz,
                self.budget == old(self).budget,
                !has_key(self.entries@, key),
                kept(self.entries@, room) == kept(first, room),
            decreases self.entries.len(),
        {
            let ghost before = self.entries@;
            proof {
                assert(before.len() > 0);
            }
            let oldest: PrefixEntry = self.entries.remove(0);
            proof {
                assert(self.entries@ =~= before.skip(1));
                assert(oldest == before[0]);
                assert forall|i: int, j: int|
                    0 <= i < j < self.entries@.len() implies (#[trigger] self.entries@[i]).key != (
                #[trigger] self.entries@[j]).key by {
                    assert(self.entries@[i] == before[i + 1] && self.entries@[j] == before[j + 1]);
                }
                assert(!has_key(self.entries@, key)) by {
                    if has_key(self.entries@, key) {
                        let i = choose|i: int|
                            0 <= i < self.entries@.len() && (#[trigger] self.entries@[i]).key
                                == key;
                        assert(before[i + 1].key == key);
                    }
                }
            }
            let freed: usize = size_of_states(oldest.states.as_slice());
            self.bytes = self.bytes - freed;
        }
        let copies: Vec<LayerState> = copy_states(states);
        let fresh: PrefixEntry = PrefixEntry { key, states: copies, covered };
        let ghost rest = self.entries@;
        proof {
            lemma_same_views_same_bytes(fresh.states@, states@);
            lemma_total_push(rest, fresh);
        }
        self.entries.push(fresh);
        self.bytes = self.bytes + sz;
        proof {
            let e = self.entries@;
            assert(e.drop_last() =~= rest);
            assert forall|i: int, j: int| 0 <= i < j < e.len() implies (#[trigger] e[i]).key != (
            #[trigger] e[j]).key by {
                assert(e[i] == rest[i]);
                if j < rest.len() {
                    assert(e[j] == rest[j]);
                }
            }
        }
    }
}

/// Only the oldest snapshots leave, and none leaves that could have stayed: what is kept
/// is a tail, and one more would not fit.
pub proof fn law_the_oldest_leave_first(e: Seq<PrefixEntry>, room: int)
    requires
        room >= 0,
    ensures
        exists|n: int| #[trigger] leaves(e, room, n),
    decreases e.len(),
{
    if e.len() == 0 || total_bytes(e) <= room {
        assert(e.skip(0) =~= e);
        assert(leaves(e, room, 0));
    } else {
        law_the_oldest_leave_first(e.skip(1), room);
        let n = choose|n: int| #[trigger] leaves(e.skip(1), room, n);
        assert(e.skip(1).skip(n) =~= e.skip(n + 1));
        if n > 0 {
            assert(e.skip(1).skip(n - 1) =~= e.skip(n));
        } else {
            assert(e.skip(0) =~= e);
        }
        assert(leaves(e, room, n + 1));
    }
}

/// Exactly the first `n` snapshots leave.
pub open spec fn leaves(e: Seq<PrefixEntry>, room: int, n: int) -> bool {
    &&& 0 <= n <= e.len()
    &&& kept(e, room) == e.skip(n)
    &&& total_bytes(e.skip(n)) <= room
    &&& n > 0 ==> total_bytes(e.skip(n - 1)) > room
}

/// A snapshot that was taken is given back under its key.
pub proof fn law_a_snapshot_is_given_back(
    store: PrefixStore,
    key: u64,
    states: Seq<LayerState>,
    covered: usize,
    got: (Seq<LayerState>, usize),
    i: int,
)
    requires
        store.wf(),
        store.entries.len() > 0,
        store.entries@.last().key == key,
        store.entries@.last().covered == covered,
        views(store.entries@.last().states@) == views(states),
        0 <= i < store.entries.len(),
        store.entries[i].key == key,
        views(got.0) == views(store.entries[i].states@),
        got.1 == store.entries[i].covered,
    ensures
        views(got.0) == views(states),
        got.1 == covered,
{
    let n = store.entries@.len() - 1;
    if i < n {
        assert(store.entries[i].key != store.entries[n].key);
    }
}

/// What a store may hold: the knob where it is given, else the readable setting, and
/// with neither a twentieth of the free memory.
pub proof fn law_budget_of_a_store(knob: Option<u64>, setting: Option<&str>, available: u64)
    ensures
        knob matches Some(b) && b <= usize::MAX ==> budget_of(knob, setting, available) == knob->0,
        knob is None && setting is Some ==> match text::decimal(text::trimmed(setting->0@)) {
            Some(n) if n <= usize::MAX => budget_of(knob, setting, available) == n,
            _ => budget_of(knob, setting, available) == 0,
        },
        knob is None && setting is None && available < 0x20_0000_0000_0000 ==> {
            let b = budget_of(knob, setting, available);
            &&& 20 * b <= available + 1
            &&& b < usize::MAX ==> available <= 20 * (b + 1)
        },
{
    if knob is None && setting is None && available < 0x20_0000_0000_0000 {
        let n = available as nat;
        doubles::law_scaled_is_close(n, PREFIX_CACHE_FRACTION as nat, 57);
        vstd::arithmetic::power2::lemma2_to64_rest();
        let s = doubles::scaled(n, PREFIX_CACHE_FRACTION as nat, 57);
        assert(n * PREFIX_CACHE_FRACTION == PREFIX_CACHE_FRACTION * n) by (nonlinear_arith);
        assert(20 * s <= available + 1);
        assert(available <= 20 * (s + 1));
    }
}

/// Snapshots take the bytes of their layers, and a store those of its snapshots.
pub proof fn law_bytes_of_snapshots_add_up(
    s: Seq<LayerState>,
    x: LayerState,
    e: Seq<PrefixEntry>,
    y: PrefixEntry,
)
    ensures
        states_bytes(Seq::empty()) == 0,
        states_bytes(s.push(x)) == states_bytes(s) + model::state_bytes(x),
        total_bytes(Seq::empty()) == 0,
        total_bytes(seq![y] + e) == states_bytes(y.states@) + total_bytes(e),
{
    assert(s.push(x).drop_last() =~= s);
    assert((seq![y] + e).skip(1) =~= e);
}

/// A snapshot is taken where the store is on, has none under its key, and could hold it
/// alone.
pub proof fn law_snapshots_that_are_taken(s: PrefixStore, key: u64, states: Seq<LayerState>)
    ensures
        s.takes(key, states) <==> s.budget > 0 && states_bytes(states) <= s.budget && forall|i: int|
            0 <= i < s.entries.len() ==> (#[trigger] s.entries[i]).key != key,
{
    if forall|i: int| 0 <= i < s.entries.len() ==> (#[trigger] s.entries[i]).key != key {
        assert forall|i: int| 0 <= i < s.entries@.len() implies (#[trigger] s.entries@[i]).key
            != key by {
            assert(s.entries[i].key != key);
        }
    }
    if s.takes(key, states) {
        assert forall|i: int| 0 <= i < s.entries.len() implies (#[trigger] s.entries[i]).key
            != key by {
            assert(s.entries@[i].key == s.entries[i].key);
        }
    }
}

} // verus!
