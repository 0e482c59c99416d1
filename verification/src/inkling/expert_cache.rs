//! A cache of routed experts' packed weights, one per layer.
//!
//! Admission follows past routing frequency; the last request breaks ties on
//! eviction, and a policy switch lets a tie admit the more recent expert. An
//! entry that someone still leases is never evicted, so retained and leased
//! bytes together stay within the capacity. Predictions look only at what is
//! cached and change neither history nor counters.
use vstd::prelude::*;

use std::sync::Arc;

use crate::text::{self, chars_of, parse_usize, parse_within};

verus! {

/// A read allocation: the bytes read and the size of the allocation.
pub struct ReadBuffer {
    pub data: Vec<u8>,
    pub allocated: usize,
}

impl ReadBuffer {
    /// The allocation holds the bytes.
    pub open spec fn wf(self) -> bool {
        self.data.len() <= self.allocated
    }

    /// A buffer without an allocation.
    pub fn empty() -> (b: ReadBuffer)
        ensures
            b.wf(),
            b.data@ =~= Seq::<u8>::empty(),
            b.allocated == 0,
    {
        ReadBuffer { data: Vec::new(), allocated: 0 }
    }

    /// A buffer that holds exactly these bytes.
    pub fn from_bytes(data: Vec<u8>) -> (b: ReadBuffer)
        ensures
            b.wf(),
            b.data == data,
            b.allocated == data.len(),
    {
        let allocated: usize = data.len();
        ReadBuffer { data, allocated }
    }

    pub fn as_slice(&self) -> (s: &[u8])
        ensures
            s@ == self.data@,
    {
        self.data.as_slice()
    }

    pub fn allocated_bytes(&self) -> (n: usize)
        ensures
            n == self.allocated,
    {
        self.allocated
    }
}

/// Another handle on the same buffer: `Arc::clone` makes a pointer to the same
/// allocation.
#[verifier::external_body]
fn lease(b: &Arc<ReadBuffer>) -> (r: Arc<ReadBuffer>)
    ensures
        r == *b,
{
    Arc::clone(b)
}

/// The handles on a buffer: `Arc::strong_count`. The count depends on what the
/// rest of the process holds, so nothing is claimed of it.
#[verifier::external_body]
fn handles(b: &Arc<ReadBuffer>) -> (n: usize) {
    Arc::strong_count(b)
}

/// Takes a buffer out of its last handle: `Arc::try_unwrap` gives the value where
/// there is one handle, and hands the handle back otherwise.
#[verifier::external_body]
fn reclaim(b: Arc<ReadBuffer>) -> (r: Result<ReadBuffer, Arc<ReadBuffer>>)
    ensures
        r matches Ok(v) ==> v == *b,
        r matches Err(v) ==> v == b,
{
    Arc::try_unwrap(b)
}

/// Counters of one cache, or of several added up.
#[derive(Clone, Copy, Debug, PartialEq, Eq, Structural)]
pub struct ExpertCacheStats {
    pub capacity_bytes: usize,
    pub retained_bytes: usize,
    pub hits: u64,
    pub hit_bytes: u64,
    pub misses: u64,
    pub admissions: u64,
    pub evictions: u64,
    pub history_resets: u64,
    pub frequency_decays: u64,
    pub recent_tie_admissions: u64,
}

/// All counters at zero, for a cache of this capacity.
pub open spec fn unused_stats(capacity_bytes: usize) -> ExpertCacheStats {
    ExpertCacheStats {
        capacity_bytes,
        retained_bytes: 0,
        hits: 0,
        hit_bytes: 0,
        misses: 0,
        admissions: 0,
        evictions: 0,
        history_resets: 0,
        frequency_decays: 0,
        recent_tie_admissions: 0,
    }
}

impl ExpertCacheStats {
    /// All counters at zero, for a cache of this capacity.
    pub fn sized(capacity_bytes: usize) -> (s: Self)
        ensures
            s == unused_stats(capacity_bytes),
    {
        ExpertCacheStats {
            capacity_bytes,
            retained_bytes: 0,
            hits: 0,
            hit_bytes: 0,
            misses: 0,
            admissions: 0,
            evictions: 0,
            history_resets: 0,
            frequency_decays: 0,
            recent_tie_admissions: 0,
        }
    }

    /// No sum of the two exceeds its counter.
    pub open spec fn addable(self, o: ExpertCacheStats) -> bool {
        &&& self.capacity_bytes + o.capacity_bytes <= usize::MAX
        &&& self.retained_bytes + o.retained_bytes <= usize::MAX
        &&& self.hits + o.hits <= u64::MAX
        &&& self.hit_bytes + o.hit_bytes <= u64::MAX
        &&& self.misses + o.misses <= u64::MAX
        &&& self.admissions + o.admissions <= u64::MAX
        &&& self.evictions + o.evictions <= u64::MAX
        &&& self.history_resets + o.history_resets <= u64::MAX
        &&& self.frequency_decays + o.frequency_decays <= u64::MAX
        &&& self.recent_tie_admissions + o.recent_tie_admissions <= u64::MAX
    }

    /// Adds another cache's counters.
    pub fn add(&mut self, other: Self)
        requires
            old(self).addable(other),
        ensures
            final(self).capacity_bytes == old(self).capacity_bytes + other.capacity_bytes,
            final(self).retained_bytes == old(self).retained_bytes + other.retained_bytes,
            final(self).hits == old(self).hits + other.hits,
            final(self).hit_bytes == old(self).hit_bytes + other.hit_bytes,
            final(self).misses == old(self).misses + other.misses,
            final(self).admissions == old(self).admissions + other.admissions,
            final(self).evictions == old(self).evictions + other.evictions,
            final(self).history_resets == old(self).history_resets + other.history_resets,
            final(self).frequency_decays == old(self).frequency_decays + other.frequency_decays,
            final(self).recent_tie_admissions == old(self).recent_tie_admissions
                + other.recent_tie_admissions,
    {
        self.capacity_bytes = self.capacity_bytes + other.capacity_bytes;
        self.retained_bytes = self.retained_bytes + other.retained_bytes;
        self.hits = self.hits + other.hits;
        self.hit_bytes = self.hit_bytes + other.hit_bytes;
        self.misses = self.misses + other.misses;
        self.admissions = self.admissions + other.admissions;
        self.evictions = self.evictions + other.evictions;
        self.history_resets = self.history_resets + other.history_resets;
        self.frequency_decays = self.frequency_decays + other.frequency_decays;
        self.recent_tie_admissions = self.recent_tie_admissions + other.recent_tie_admissions;
    }
}

/// A cached expert.
pub struct Entry {
    pub expert: usize,
    pub bytes: Arc<ReadBuffer>,
}

/// The cache of one layer.
pub struct ExpertCache {
    pub frequency: Vec<u64>,
    pub last: Vec<u64>,
    pub clock: u64,
    pub decay_requests: u64,
    pub recent_ties: bool,
    pub entries: Vec<Entry>,
    pub stats: ExpertCacheStats,
}

/// Allocated bytes of all entries.
pub open spec fn allocated_total(entries: Seq<Entry>) -> int
    decreases entries.len(),
{
    if entries.len() == 0 {
        0
    } else {
        allocated_total(entries.drop_last()) + entries.last().bytes.allocated
    }
}

/// An expert is among the entries.
pub open spec fn cached(entries: Seq<Entry>, expert: usize) -> bool {
    exists|i: int| 0 <= i < entries.len() && (#[trigger] entries[i]).expert == expert
}

/// The buffer of an expert, where it is cached.
pub open spec fn buffer_of(entries: Seq<Entry>, expert: usize) -> Option<ReadBuffer> {
    if cached(entries, expert) {
        let i = choose|i: int| 0 <= i < entries.len() && (#[trigger] entries[i]).expert == expert;
        Some(*entries[i].bytes)
    } else {
        None
    }
}

/// Routing history: how often and when each expert was asked for.
#[verifier::ext_equal]
pub struct History {
    pub frequency: Seq<u64>,
    pub last: Seq<u64>,
    pub clock: u64,
    pub decays: u64,
}

pub open spec fn next_clock(clock: u64) -> u64 {
    if clock < u64::MAX {
        (clock + 1) as u64
    } else {
        u64::MAX
    }
}

/// Half of every count, rounded up.
pub open spec fn halved(frequency: Seq<u64>) -> Seq<u64> {
    Seq::new(frequency.len(), |i: int| ((frequency[i] + 1) / 2) as u64)
}

/// The history after one more request for `expert`. Every `decay` requests all
/// counts are halved first.
pub open spec fn observed(h: History, decay: u64, expert: usize) -> History {
    let clock = next_clock(h.clock);
    let decays = clock % decay == 0;
    let counts = if decays {
        halved(h.frequency)
    } else {
        h.frequency
    };
    let e = expert as int;
    History {
        frequency: counts.update(e, next_clock(counts[e])),
        last: h.last.update(e, clock),
        clock,
        decays: if decays {
            h.decays.wrapping_add(1)
        } else {
            h.decays
        },
    }
}

/// The history after these requests, in order.
pub open spec fn observed_all(h: History, decay: u64, experts: Seq<usize>) -> History
    decreases experts.len(),
{
    if experts.len() == 0 {
        h
    } else {
        observed(observed_all(h, decay, experts.drop_last()), decay, experts.last())
    }
}

/// Requests among `experts` that are cached.
pub open spec fn hits_of(entries: Seq<Entry>, experts: Seq<usize>) -> nat
    decreases experts.len(),
{
    if experts.len() == 0 {
        0
    } else {
        hits_of(entries, experts.drop_last()) + if cached(entries, experts.last()) {
            1nat
        } else {
            0
        }
    }
}

/// Bytes that those hits serve.
pub open spec fn hit_bytes_of(entries: Seq<Entry>, experts: Seq<usize>) -> nat
    decreases experts.len(),
{
    if experts.len() == 0 {
        0
    } else {
        hit_bytes_of(entries, experts.drop_last()) + match buffer_of(entries, experts.last()) {
            Some(b) => b.data.len() as nat,
            None => 0,
        }
    }
}

/// What becomes of a buffer that is offered to the cache.
#[derive(Clone, Copy, PartialEq, Eq, Structural, Debug)]
pub enum Admission {
    /// It stays with the caller.
    Decline,
    /// It fits beside the others.
    Fits,
    /// It replaces the entry at `at`.
    Evict { at: usize, recent_tie: bool },
}

/// `after` is `before` after a lookup of `experts`: the history has seen them all, and hits
/// and misses are counted.
pub open spec fn looked_up(before: ExpertCache, after: ExpertCache, experts: Seq<usize>) -> bool {
    let hits = hits_of(before.entries@, experts);
    &&& after.same_policy(before)
    &&& after.entries == before.entries
    &&& after.history() == observed_all(before.history(), before.decay_requests, experts)
    &&& after.stats == (ExpertCacheStats {
        hits: wrapping_sum(before.stats.hits, hits),
        hit_bytes: wrapping_sum(before.stats.hit_bytes, hit_bytes_of(before.entries@, experts)),
        misses: wrapping_sum(before.stats.misses, (experts.len() - hits) as nat),
        frequency_decays: after.stats.frequency_decays,
        ..before.stats
    })
}

/// `after` is `before` with a buffer kept for an expert that it did not hold.
pub open spec fn preloaded(
    before: ExpertCache,
    after: ExpertCache,
    expert: usize,
    bytes: ReadBuffer,
) -> bool {
    &&& after.same_policy(before)
    &&& after.history() == before.history()
    &&& extended(before.entries@, after.entries@, expert, bytes)
    &&& after.stats == (ExpertCacheStats {
        retained_bytes: (before.stats.retained_bytes + bytes.allocated) as usize,
        ..before.stats
    })
}

impl ExpertCache {
    pub open spec fn wf(self) -> bool {
        &&& self.frequency.len() == self.last.len()
        &&& self.decay_requests > 0
        &&& forall|i: int|
            0 <= i < self.entries.len() ==> (#[trigger] self.entries[i]).expert
                < self.frequency.len()
        &&& forall|i: int, j: int|
            0 <= i < j < self.entries.len() ==> (#[trigger] self.entries[i]).expert != (
            #[trigger] self.entries[j]).expert
        &&& self.stats.retained_bytes == allocated_total(self.entries@)
        &&& self.stats.retained_bytes <= self.stats.capacity_bytes
    }

    pub open spec fn history(self) -> History {
        History {
            frequency: self.frequency@,
            last: self.last@,
            clock: self.clock,
            decays: self.stats.frequency_decays,
        }
    }

    pub open spec fn same_policy(self, other: ExpertCache) -> bool {
        &&& self.decay_requests == other.decay_requests
        &&& self.recent_ties == other.recent_ties
        &&& self.stats.capacity_bytes == other.stats.capacity_bytes
        &&& self.frequency.len() == other.frequency.len()
    }

    /// A cache with an explicit policy.
    pub fn with_policy(experts: usize, capacity: usize, decay_requests: u64, recent_ties: bool) -> (c:
        Self)
        requires
            decay_requests > 0,
        ensures
            c.wf(),
            c.frequency@ =~= Seq::new(experts as nat, |i: int| 0u64),
            c.last@ =~= Seq::new(experts as nat, |i: int| 0u64),
            c.clock == 0,
            c.decay_requests == decay_requests,
            c.recent_ties == recent_ties,
            c.entries.len() == 0,
            c.stats == unused_stats(capacity),
    {
        ExpertCache {
            frequency: vec![0u64; experts],
            last: vec![0u64; experts],
            clock: 0,
            decay_requests,
            recent_ties,
            entries: Vec::new(),
            stats: ExpertCacheStats::sized(capacity),
        }
    }

    /// A cache that halves its counts every `decay_requests` requests.
    pub fn with_decay(experts: usize, capacity: usize, decay_requests: u64) -> (c: Self)
        requires
            decay_requests > 0,
        ensures
            c.wf(),
            c.frequency@ =~= Seq::new(experts as nat, |i: int| 0u64),
            c.last@ =~= Seq::new(experts as nat, |i: int| 0u64),
            c.clock == 0,
            c.decay_requests == decay_requests,
            !c.recent_ties,
            c.entries.len() == 0,
            c.stats == unused_stats(capacity),
    {
        ExpertCache::with_policy(experts, capacity, decay_requests, false)
    }

    /// A cache configured by the text of its decay setting: a power of two from
    /// 4 to 65536, or 4096 for anything else.
    pub fn new(experts: usize, capacity: usize, decay_setting: Option<&str>, recent_ties: bool) -> (c:
        Self)
        ensures
            c.wf(),
            c.frequency@ =~= Seq::new(experts as nat, |i: int| 0u64),
            c.last@ =~= Seq::new(experts as nat, |i: int| 0u64),
            c.clock == 0,
            c.decay_requests == decay_of(setting_text(decay_setting)),
            c.recent_ties == recent_ties,
            c.entries.len() == 0,
            c.stats == unused_stats(capacity),
    {
        let decay: u64 = match decay_setting {
            Some(s) => {
                let v: Vec<char> = chars_of(s);
                match parse_within(v.as_slice(), u64::MAX) {
                    Some(n) => if allowed_decay(n) {
                        n
                    } else {
                        4096
                    },
                    None => 4096,
                }
            },
            None => 4096,
        };
        ExpertCache::with_policy(experts, capacity, decay, recent_ties)
    }

    /// Counters so far.
    pub fn stats(&self) -> (s: ExpertCacheStats)
        ensures
            s == self.stats,
    {
        self.stats
    }

    fn find(&self, expert: usize) -> (at: Option<usize>)
        requires
            self.wf(),
        ensures
            match at {
                Some(i) => i < self.entries.len() && self.entries[i as int].expert == expert
                    && cached(self.entries@, expert) && buffer_of(self.entries@, expert) == Some(
                    *self.entries[i as int].bytes,
                ),
                None => !cached(self.entries@, expert),
            },
    {
        let mut i: usize = 0;
        while i < self.entries.len()
            invariant
                self.wf(),
                i <= self.entries.len(),
                forall|x: int| 0 <= x < i ==> (#[trigger] self.entries[x]).expert != expert,
            decreases self.entries.len() - i,
        {
            if self.entries[i].expert == expert {
                proof {
                    assert(self.entries@[i as int].expert == expert);
                    let j = choose|j: int|
                        0 <= j < self.entries@.len() && (#[trigger] self.entries@[j]).expert
                            == expert;
                    if j < i {
                        assert(self.entries[j].expert != self.entries[i as int].expert);
                    } else if i < j {
                        assert(self.entries[i as int].expert != self.entries[j].expert);
                    }
                }
                return Some(i);
            }
            i += 1;
        }
        None
    }

    /// Forgets which experts were asked for, keeping their weights and the
    /// counters. A disabled cache has no history.
    pub fn reset_history(&mut self)
        requires
            old(self).wf(),
        ensures
            final(self).wf(),
            final(self).same_policy(*old(self)),
            final(self).entries == old(self).entries,
            old(self).stats.capacity_bytes == 0 ==> *final(self) == *old(self),
            old(self).stats.capacity_bytes > 0 ==> {
                &&& final(self).frequency@ =~= Seq::new(
                    old(self).frequency@.len(),
                    |i: int| 0u64,
                )
                &&& final(self).last@ =~= Seq::new(old(self).frequency@.len(), |i: int| 0u64)
                &&& final(self).clock == 0
                &&& final(self).stats == (ExpertCacheStats {
                    history_resets: old(self).stats.history_resets.wrapping_add(1),
                    ..old(self).stats
                })
            },
    {
        if self.stats.capacity_bytes != 0 {
            let n: usize = self.frequency.len();
            self.frequency = vec![0u64; n];
            self.last = vec![0u64; n];
            self.clock = 0;
            self.stats.history_resets = self.stats.history_resets.wrapping_add(1);
        }
    }

    /// Records requests for these experts, in order, and leases the cached ones.
    /// Nothing for a disabled cache.
    pub fn lookup(&mut self, experts: &[usize]) -> (found: Option<Vec<Option<Arc<ReadBuffer>>>>)
        requires
            old(self).wf(),
            old(self).stats.capacity_bytes > 0 ==> forall|i: int|
                0 <= i < experts.len() ==> (#[trigger] experts[i]) < old(self).frequency.len(),
        ensures
            final(self).wf(),
            final(self).same_policy(*old(self)),
            final(self).entries == old(self).entries,
            found is Some <==> old(self).stats.capacity_bytes > 0,
            found is None ==> *final(self) == *old(self),
            found matches Some(f) ==> {
                &&& f.len() == experts.len()
                &&& forall|i: int| #![trigger f[i]]
                    0 <= i < experts.len() ==> match buffer_of(old(self).entries@, experts[i]) {
                        Some(b) => f[i] is Some && *f[i]->0 == b,
                        None => f[i] is None,
                    }
                &&& looked_up(*old(self), *final(self), experts@)
            },
    {
        if self.stats.capacity_bytes == 0 {
            return None;
        }
        let mut found: Vec<Option<Arc<ReadBuffer>>> = Vec::new();
        let mut i: usize = 0;
        proof {
            assert(experts@.take(0) =~= Seq::<usize>::empty());
            lemma_wrapping_zero(self.stats.hits);
            lemma_wrapping_zero(self.stats.misses);
            lemma_wrapping_zero(self.stats.hit_bytes);
        }
        while i < experts.len()
            invariant
                old(self).wf(),
                self.wf(),
                self.same_policy(*old(self)),
                self.stats.capacity_bytes > 0,
                self.entries == old(self).entries,
                forall|x: int|
                    0 <= x < experts.len() ==> (#[trigger] experts[x]) < old(self).frequency.len(),
                i <= experts.len(),
                found.len() == i,
                forall|x: int| #![trigger found[x]]
                    0 <= x < i ==> match buffer_of(old(self).entries@, experts[x]) {
                        Some(b) => found[x] is Some && *found[x]->0 == b,
                        None => found[x] is None,
                    },
                self.history() == observed_all(
                    old(self).history(),
                    old(self).decay_requests,
                    experts@.take(i as int),
                ),
                hits_of(old(self).entries@, experts@.take(i as int)) <= i,
                self.stats.hits == wrapping_sum(
                    old(self).stats.hits,
                    hits_of(old(self).entries@, experts@.take(i as int)),
                ),
                self.stats.misses == wrapping_sum(
                    old(self).stats.misses,
                    (i - hits_of(old(self).entries@, experts@.take(i as int))) as nat,
                ),
                self.stats.hit_bytes == wrapping_sum(
                    old(self).stats.hit_bytes,
                    hit_bytes_of(old(self).entries@, experts@.take(i as int)),
                ),
                self.stats == (ExpertCacheStats {
                    hits: self.stats.hits,
                    hit_bytes: self.stats.hit_bytes,
                    misses: self.stats.misses,
                    frequency_decays: self.stats.frequency_decays,
                    ..old(self).stats
                }),
            decreases experts.len() - i,
        {
            let expert: usize = experts[i];
            let ghost head = experts@.take(i as int);
            let ghost longer = experts@.take(i + 1);
            let ghost before = *self;
            proof {
                assert(longer.drop_last() =~= head);
                assert(longer.last() == expert);
            }
            self.observe(expert);
            let hit: Option<Arc<ReadBuffer>> = match self.find(expert) {
                Some(at) => Some(lease(&self.entries[at].bytes)),
                None => None,
            };
            match &hit {
                Some(b) => {
                    proof {
                        lemma_wrapping_step(
                            old(self).stats.hits,
                            hits_of(old(self).entries@, head),
                            1,
                        );
                        lemma_wrapping_step(
                            old(self).stats.hit_bytes,
                            hit_bytes_of(old(self).entries@, head),
                            b.data.len() as u64,
                        );
                    }
                    self.stats.hits = self.stats.hits.wrapping_add(1);
                    self.stats.hit_bytes = self.stats.hit_bytes.wrapping_add(
                        b.as_slice().len() as u64,
                    );
                },
                None => {
                    proof {
                        lemma_wrapping_step(
                            old(self).stats.misses,
                            (i - hits_of(old(self).entries@, head)) as nat,
                            1,
                        );
                    }
                    self.stats.misses = self.stats.misses.wrapping_add(1);
                },
            }
            found.push(hit);
            i += 1;
        }
        proof {
            assert(experts@.take(experts.len() as int) =~= experts@);
        }
        Some(found)
    }

    /// Records one request.
    fn observe(&mut self, expert: usize)
        requires
            old(self).wf(),
            expert < old(self).frequency.len(),
        ensures
            final(self).wf(),
            final(self).same_policy(*old(self)),
            final(self).entries == old(self).entries,
            final(self).history() == observed(old(self).history(), old(self).decay_requests, expert),
            final(self).stats == (ExpertCacheStats {
                frequency_decays: final(self).stats.frequency_decays,
                ..old(self).stats
            }),
    {
        self.clock = self.clock.saturating_add(1);
        if self.clock % self.decay_requests == 0 {
            let counts: Vec<u64> = halve_all(&self.frequency);
            self.frequency = counts;
            self.stats.frequency_decays = self.stats.frequency_decays.wrapping_add(1);
        }
        let f: u64 = self.frequency[expert];
        self.frequency.set(expert, f.saturating_add(1));
        self.last.set(expert, self.clock);
    }
}

fn halve_all(counts: &Vec<u64>) -> (h: Vec<u64>)
    ensures
        h@ =~= halved(counts@),
{
    let mut h: Vec<u64> = Vec::new();
    let mut i: usize = 0;
    while i < counts.len()
        invariant
            i <= counts.len(),
            h.len() == i,
            forall|x: int| 0 <= x < i ==> #[trigger] h[x] == (counts[x] + 1) / 2,
        decreases counts.len() - i,
    {
        let c: u64 = counts[i];
        h.push(c / 2 + c % 2);
        i += 1;
    }
    h
}

/// `base + n` modulo the width of a counter.
pub open spec fn wrapping_sum(base: u64, n: nat) -> u64 {
    ((base + n) % 0x1_0000_0000_0000_0000) as u64
}

proof fn lemma_wrapping_zero(base: u64)
    ensures
        wrapping_sum(base, 0) == base,
{
    vstd::arithmetic::div_mod::lemma_small_mod(base as nat, 0x1_0000_0000_0000_0000);
}

proof fn lemma_wrapping_step(base: u64, n: nat, k: u64)
    ensures
        wrapping_sum(base, n + k as nat) == wrapping_sum(base, n).wrapping_add(k),
{
    let m: int = 0x1_0000_0000_0000_0000;
    let a = base + n;
    vstd::arithmetic::div_mod::lemma_add_mod_noop(a, k as int, m);
    vstd::arithmetic::div_mod::lemma_small_mod(k as nat, m as nat);
    let r = a % m;
    let s = wrapping_sum(base, n);
    assert(s == r);
    if r + k < m {
        vstd::arithmetic::div_mod::lemma_small_mod((r + k) as nat, m as nat);
    } else {
        vstd::arithmetic::div_mod::lemma_mod_sub_multiples_vanish(r + k, m);
        vstd::arithmetic::div_mod::lemma_small_mod((r + k - m) as nat, m as nat);
    }
}

/// The text of a setting; empty where it is not set.
pub open spec fn setting_text(s: Option<&str>) -> Seq<char> {
    match s {
        Some(t) => t@,
        None => Seq::empty(),
    }
}

pub open spec fn decay_allowed(n: nat) -> bool {
    n == 4 || n == 8 || n == 16 || n == 32 || n == 64 || n == 128 || n == 256 || n == 512 || n
        == 1024 || n == 2048 || n == 4096 || n == 8192 || n == 16384 || n == 32768 || n == 65536
}

fn allowed_decay(n: u64) -> (b: bool)
    ensures
        b == decay_allowed(n as nat),
{
    n == 4 || n == 8 || n == 16 || n == 32 || n == 64 || n == 128 || n == 256 || n == 512 || n
        == 1024 || n == 2048 || n == 4096 || n == 8192 || n == 16384 || n == 32768 || n == 65536
}

/// The decay period that a setting asks for.
pub open spec fn decay_of(s: Seq<char>) -> nat {
    match text::decimal_within(s, u64::MAX as nat) {
        Some(n) if decay_allowed(n) => n,
        _ => 4096,
    }
}

/// The cache size that a setting in mebibytes asks for: at most 16384, else none.
pub open spec fn configured(s: Seq<char>) -> nat {
    match text::decimal_within(s, usize::MAX as nat) {
        Some(n) if n <= 16384 => n * 1024 * 1024,
        _ => 0,
    }
}

impl ExpertCache {
    /// The size of a layer's cache from its setting.
    pub fn configured_bytes(setting: Option<&str>) -> (n: u64)
        ensures
            n == configured(setting_text(setting)),
    {
        match setting {
            Some(s) => {
                let v: Vec<char> = chars_of(s);
                match parse_usize(v.as_slice()) {
                    Some(mib) => if mib <= 16384 {
                        mib as u64 * 1024 * 1024
                    } else {
                        0
                    },
                    None => 0,
                }
            },
            None => 0,
        }
    }
}

/// An expert that a prediction may ask for: a known one that is not cached.
pub open spec fn fresh(c: ExpertCache, expert: usize) -> bool {
    expert < c.frequency.len() && !cached(c.entries@, expert)
}

/// The first rank from `from` on whose expert is fresh and neither `a` nor `b`;
/// the length of the list where there is none.
pub open spec fn next_rank(
    c: ExpertCache,
    predictions: Seq<usize>,
    from: int,
    a: Option<usize>,
    b: Option<usize>,
) -> int
    decreases predictions.len() - from,
{
    if from >= predictions.len() {
        predictions.len() as int
    } else if fresh(c, predictions[from]) && a != Some(predictions[from]) && b != Some(
        predictions[from],
    ) {
        from
    } else {
        next_rank(c, predictions, from + 1, a, b)
    }
}

/// The experts that a ranked prediction asks for: the first fresh one; the second
/// where its rank is within the ceiling; a third where one is wanted and all
/// three lead the ranking.
pub open spec fn predicted(
    c: ExpertCache,
    predictions: Seq<usize>,
    second_rank_ceiling: int,
    third: bool,
) -> (Option<usize>, Option<usize>, Option<usize>) {
    let n = predictions.len();
    let r0 = next_rank(c, predictions, 0, None, None);
    if c.stats.capacity_bytes == 0 || r0 >= n {
        (None, None, None)
    } else {
        let first = Some(predictions[r0]);
        let r1 = next_rank(c, predictions, r0 + 1, first, None);
        if r1 >= n || r1 > second_rank_ceiling {
            (first, None, None)
        } else {
            let second = Some(predictions[r1]);
            let r2 = next_rank(c, predictions, r1 + 1, first, second);
            if third && r2 < n && r2 <= 2 {
                (first, second, Some(predictions[r2]))
            } else {
                (first, second, None)
            }
        }
    }
}

/// Evicting entry `i` makes room for `size` bytes, and nobody leases it.
pub open spec fn evictable(c: ExpertCache, size: int, free: Seq<bool>, i: int) -> bool {
    &&& 0 <= i < c.entries.len()
    &&& free[i]
    &&& size <= c.stats.capacity_bytes - c.stats.retained_bytes + c.entries[i].bytes.allocated
}

/// Expert `a` was asked for less often than `b`, or as often and longer ago.
pub open spec fn colder(c: ExpertCache, a: int, b: int) -> bool {
    c.frequency[a] < c.frequency[b] || (c.frequency[a] == c.frequency[b] && c.last[a] < c.last[b])
}

/// Entry `v` is the coldest evictable one, the first of equals.
pub open spec fn coldest(c: ExpertCache, size: int, free: Seq<bool>, v: int) -> bool {
    &&& evictable(c, size, free, v)
    &&& forall|j: int| #[trigger]
        evictable(c, size, free, j) ==> !colder(
            c,
            c.entries[j].expert as int,
            c.entries[v].expert as int,
        ) && (j < v ==> colder(c, c.entries[v].expert as int, c.entries[j].expert as int))
}

/// The entry that leaves for `size` more bytes, if there is one.
pub open spec fn victim(c: ExpertCache, size: int, free: Seq<bool>) -> Option<int> {
    if exists|v: int| coldest(c, size, free, v) {
        Some(choose|v: int| coldest(c, size, free, v))
    } else {
        None
    }
}

/// The incoming expert was asked for as often as the one it would replace, and
/// more recently, under the policy that lets this decide.
pub open spec fn ties_recent(c: ExpertCache, expert: int, old: int) -> bool {
    c.recent_ties && c.frequency[expert] == c.frequency[old] && c.last[expert] > c.last[old]
}

/// What becomes of `given` when it is offered for `expert`; `free[i]` says that
/// nobody leases entry `i`.
pub open spec fn admission(
    c: ExpertCache,
    expert: usize,
    given: ReadBuffer,
    free: Seq<bool>,
) -> Admission {
    let e = expert as int;
    let size = given.allocated as int;
    if given.data.len() == 0 || size > c.stats.capacity_bytes || e >= c.frequency.len()
        || c.frequency[e] == 0 || cached(c.entries@, expert) {
        Admission::Decline
    } else if size <= c.stats.capacity_bytes - c.stats.retained_bytes {
        Admission::Fits
    } else {
        match victim(c, size, free) {
            None => Admission::Decline,
            Some(v) => {
                let old = c.entries[v].expert as int;
                if c.frequency[e] > c.frequency[old] || ties_recent(c, e, old) {
                    Admission::Evict { at: v as usize, recent_tie: ties_recent(c, e, old) }
                } else {
                    Admission::Decline
                }
            },
        }
    }
}

/// Entry `at` leaves; the last entry takes its place.
pub open spec fn without(entries: Seq<Entry>, at: int) -> Seq<Entry> {
    entries.update(at, entries.last()).drop_last()
}

/// `after` is `before` with one entry for `expert` behind it.
pub open spec fn extended(
    before: Seq<Entry>,
    after: Seq<Entry>,
    expert: usize,
    given: ReadBuffer,
) -> bool {
    &&& after.len() == before.len() + 1
    &&& after.drop_last() =~= before
    &&& after.last().expert == expert
    &&& *after.last().bytes == given
}

/// The cache after `given` was offered for `expert`.
pub open spec fn offered(
    pre: ExpertCache,
    post: ExpertCache,
    expert: usize,
    given: ReadBuffer,
    free: Seq<bool>,
) -> bool {
    &&& post.same_policy(pre)
    &&& post.history() == pre.history()
    &&& match admission(pre, expert, given, free) {
        Admission::Decline => unchanged(pre, post),
        Admission::Fits => {
            &&& extended(pre.entries@, post.entries@, expert, given)
            &&& post.stats == (ExpertCacheStats {
                retained_bytes: (pre.stats.retained_bytes + given.allocated) as usize,
                admissions: pre.stats.admissions.wrapping_add(1),
                ..pre.stats
            })
        },
        Admission::Evict { at, recent_tie } => {
            &&& extended(without(pre.entries@, at as int), post.entries@, expert, given)
            &&& post.stats == (ExpertCacheStats {
                retained_bytes: (pre.stats.retained_bytes - pre.entries[at as int].bytes.allocated
                    + given.allocated) as usize,
                admissions: pre.stats.admissions.wrapping_add(1),
                evictions: pre.stats.evictions.wrapping_add(1),
                recent_tie_admissions: pre.stats.recent_tie_admissions.wrapping_add(
                    if recent_tie {
                        1
                    } else {
                        0
                    },
                ),
                ..pre.stats
            })
        },
    }
}

/// `post` holds what `pre` held.
pub open spec fn unchanged(pre: ExpertCache, post: ExpertCache) -> bool {
    &&& post.entries@ =~= pre.entries@
    &&& post == (ExpertCache { entries: post.entries, ..pre })
}

/// Which entries nobody leases: those of exactly one handle, the cache's own.
pub open spec fn sole(counts: Seq<usize>) -> Seq<bool> {
    counts.map_values(|n: usize| n == 1)
}

/// What an offer leaves in the caller's buffer: the buffer itself where it was declined, an
/// empty one where it was kept in free room, and the evicted allocation otherwise.
pub open spec fn left_over(
    pre: ExpertCache,
    expert: usize,
    given: ReadBuffer,
    free: Seq<bool>,
    after: ReadBuffer,
) -> bool {
    match admission(pre, expert, given, free) {
        Admission::Decline => after == given,
        Admission::Fits => after.data@.len() == 0 && after.allocated == 0,
        Admission::Evict { at, .. } => after == *pre.entries[at as int].bytes,
    }
}

/// The cache and the buffer after an offer under some numbers of handles on the entries.
pub open spec fn offer_settled(
    pre: ExpertCache,
    post: ExpertCache,
    expert: usize,
    given: ReadBuffer,
    after: ReadBuffer,
    counts: Seq<usize>,
) -> bool {
    &&& counts.len() == pre.entries.len()
    &&& offered(pre, post, expert, given, sole(counts))
    &&& left_over(pre, expert, given, sole(counts), after)
}

proof fn lemma_total_update(s: Seq<Entry>, i: int, x: Entry)
    requires
        0 <= i < s.len(),
    ensures
        allocated_total(s.update(i, x)) == allocated_total(s) - s[i].bytes.allocated
            + x.bytes.allocated,
    decreases s.len(),
{
    let u = s.update(i, x);
    if i == s.len() - 1 {
        assert(u.drop_last() =~= s.drop_last());
    } else {
        assert(u.drop_last() =~= s.drop_last().update(i, x));
        lemma_total_update(s.drop_last(), i, x);
    }
}

proof fn lemma_total_without(s: Seq<Entry>, i: int)
    requires
        0 <= i < s.len(),
    ensures
        allocated_total(without(s, i)) == allocated_total(s) - s[i].bytes.allocated,
{
    lemma_total_update(s, i, s.last());
    let u = s.update(i, s.last());
    assert(u.last() == s.last());
    assert(without(s, i) == u.drop_last());
}

proof fn lemma_total_bounds(s: Seq<Entry>, i: int)
    requires
        0 <= i < s.len(),
    ensures
        0 <= s[i].bytes.allocated <= allocated_total(s),
    decreases s.len(),
{
    if i < s.len() - 1 {
        lemma_total_bounds(s.drop_last(), i);
    } else {
        lemma_total_nonneg(s.drop_last());
    }
}

proof fn lemma_total_nonneg(s: Seq<Entry>)
    ensures
        0 <= allocated_total(s),
    decreases s.len(),
{
    if s.len() > 0 {
        lemma_total_nonneg(s.drop_last());
    }
}

proof fn lemma_coldest_unique(c: ExpertCache, size: int, free: Seq<bool>, a: int, b: int)
    requires
        coldest(c, size, free, a),
        coldest(c, size, free, b),
    ensures
        a == b,
{
    assert(evictable(c, size, free, a) && evictable(c, size, free, b));
}

impl ExpertCache {
    fn is_fresh(&self, expert: usize) -> (b: bool)
        requires
            self.wf(),
        ensures
            b == fresh(*self, expert),
    {
        expert < self.frequency.len() && self.find(expert).is_none()
    }

    fn find_rank(
        &self,
        predictions: &[usize],
        from: usize,
        a: Option<usize>,
        b: Option<usize>,
    ) -> (r: usize)
        requires
            self.wf(),
            from <= predictions.len(),
        ensures
            r == next_rank(*self, predictions@, from as int, a, b),
            from <= r <= predictions.len(),
    {
        let mut i: usize = from;
        while i < predictions.len()
            invariant
                self.wf(),
                from <= i <= predictions.len(),
                next_rank(*self, predictions@, from as int, a, b) == next_rank(
                    *self,
                    predictions@,
                    i as int,
                    a,
                    b,
                ),
            decreases predictions.len() - i,
        {
            let expert: usize = predictions[i];
            if self.is_fresh(expert) && !is_expert(a, expert) && !is_expert(b, expert) {
                return i;
            }
            i += 1;
        }
        i
    }

    /// The first predicted expert that is not cached. Neither history nor
    /// counters change.
    pub fn first_uncached(&self, predictions: &[usize]) -> (r: Option<usize>)
        requires
            self.wf(),
        ensures
            r == predicted(*self, predictions@, 0, false).0,
    {
        if self.stats.capacity_bytes == 0 {
            return None;
        }
        let i: usize = self.find_rank(predictions, 0, None, None);
        if i < predictions.len() {
            Some(predictions[i])
        } else {
            None
        }
    }

    /// The first predicted expert that is not cached, and the second where its
    /// rank is within the ceiling.
    pub fn selective_uncached(&self, predictions: &[usize], second_rank_ceiling: usize) -> (r: [Option<
        usize,
    >; 2])
        requires
            self.wf(),
        ensures
            r[0] == predicted(*self, predictions@, second_rank_ceiling as int, false).0,
            r[1] == predicted(*self, predictions@, second_rank_ceiling as int, false).1,
    {
        let r: [Option<usize>; 3] = self.predicted_uncached(
            predictions,
            second_rank_ceiling,
            false,
        );
        [r[0], r[1]]
    }

    /// Up to three predicted experts that are not cached. The third is given only
    /// where all three lead the ranking.
    pub fn predicted_uncached(
        &self,
        predictions: &[usize],
        second_rank_ceiling: usize,
        third: bool,
    ) -> (r: [Option<usize>; 3])
        requires
            self.wf(),
        ensures
            r[0] == predicted(*self, predictions@, second_rank_ceiling as int, third).0,
            r[1] == predicted(*self, predictions@, second_rank_ceiling as int, third).1,
            r[2] == predicted(*self, predictions@, second_rank_ceiling as int, third).2,
    {
        if self.stats.capacity_bytes == 0 {
            return [None, None, None];
        }
        let r0: usize = self.find_rank(predictions, 0, None, None);
        if r0 >= predictions.len() {
            return [None, None, None];
        }
        let first: Option<usize> = Some(predictions[r0]);
        let r1: usize = self.find_rank(predictions, r0 + 1, first, None);
        if r1 >= predictions.len() || r1 > second_rank_ceiling {
            return [first, None, None];
        }
        let second: Option<usize> = Some(predictions[r1]);
        if !third {
            return [first, second, None];
        }
        let r2: usize = self.find_rank(predictions, r1 + 1, first, second);
        if r2 < predictions.len() && r2 <= 2 {
            [first, second, Some(predictions[r2])]
        } else {
            [first, second, None]
        }
    }

    /// Caches an expert before anything asked for it. Takes free capacity only,
    /// never evicts and leaves the counters alone; false where it did not fit or
    /// was there already.
    pub fn preload(&mut self, expert: usize, bytes: &mut ReadBuffer) -> (kept: bool)
        requires
            old(self).wf(),
        ensures
            final(self).wf(),
            final(self).same_policy(*old(self)),
            final(self).history() == old(self).history(),
            kept <==> old(bytes).data.len() > 0 && expert < old(self).frequency.len()
                && old(bytes).allocated <= old(self).stats.capacity_bytes
                - old(self).stats.retained_bytes && !cached(old(self).entries@, expert),
            !kept ==> *final(self) == *old(self) && *final(bytes) == *old(bytes),
            kept ==> {
                &&& preloaded(*old(self), *final(self), expert, *old(bytes))
                &&& final(bytes).data@ =~= Seq::<u8>::empty()
                &&& final(bytes).allocated == 0
            },
    {
        if bytes.data.len() == 0 || expert >= self.frequency.len() || bytes.allocated
            > self.stats.capacity_bytes - self.stats.retained_bytes {
            return false;
        }
        if self.find(expert).is_some() {
            return false;
        }
        let mut incoming: ReadBuffer = ReadBuffer::empty();
        std::mem::swap(bytes, &mut incoming);
        self.stats.retained_bytes = self.stats.retained_bytes + incoming.allocated;
        self.append(expert, incoming);
        true
    }

    /// Puts an entry behind the others.
    fn append(&mut self, expert: usize, incoming: ReadBuffer)
        requires
            expert < old(self).frequency.len(),
            !cached(old(self).entries@, expert),
            old(self).stats.retained_bytes == allocated_total(old(self).entries@)
                + incoming.allocated,
            old(self).stats.retained_bytes <= old(self).stats.capacity_bytes,
            old(self).frequency.len() == old(self).last.len(),
            old(self).decay_requests > 0,
            forall|i: int|
                0 <= i < old(self).entries.len() ==> (#[trigger] old(self).entries[i]).expert
                    < old(self).frequency.len(),
            forall|i: int, j: int|
                0 <= i < j < old(self).entries.len() ==> (#[trigger] old(self).entries[i]).expert
                    != (#[trigger] old(self).entries[j]).expert,
        ensures
            final(self).wf(),
            final(self).same_policy(*old(self)),
            final(self).history() == old(self).history(),
            final(self).stats == old(self).stats,
            extended(old(self).entries@, final(self).entries@, expert, incoming),
    {
        let ghost before = self.entries@;
        self.entries.push(Entry { expert, bytes: Arc::new(incoming) });
        proof {
            assert(self.entries@.drop_last() =~= before);
            assert forall|i: int, j: int| 0 <= i < j < self.entries.len() implies (
            #[trigger] self.entries[i]).expert != (#[trigger] self.entries[j]).expert by {
                assert(self.entries[i] == before[i]);
                if j < before.len() {
                    assert(self.entries[j] == before[j]);
                }
            }
        }
    }

    /// The coldest entry that may leave for `size` bytes.
    fn find_victim(&self, size: usize, free: &[bool]) -> (v: Option<usize>)
        requires
            self.wf(),
            free.len() == self.entries.len(),
        ensures
            match v {
                Some(i) => victim(*self, size as int, free@) == Some(i as int) && coldest(
                    *self,
                    size as int,
                    free@,
                    i as int,
                ),
                None => victim(*self, size as int, free@) is None,
            },
    {
        let mut best: Option<usize> = None;
        let mut i: usize = 0;
        while i < self.entries.len()
            invariant
                self.wf(),
                free.len() == self.entries.len(),
                i <= self.entries.len(),
                best matches Some(v) ==> {
                    &&& v < i
                    &&& evictable(*self, size as int, free@, v as int)
                    &&& forall|j: int|
                        j < i && #[trigger] evictable(*self, size as int, free@, j) ==> !colder(
                            *self,
                            self.entries[j].expert as int,
                            self.entries[v as int].expert as int,
                        ) && (j < v ==> colder(
                            *self,
                            self.entries[v as int].expert as int,
                            self.entries[j].expert as int,
                        ))
                },
                best is None ==> forall|j: int|
                    j < i ==> !#[trigger] evictable(*self, size as int, free@, j),
            decreases self.entries.len() - i,
        {
            proof {
                lemma_total_bounds(self.entries@, i as int);
            }
            let room: usize = self.stats.capacity_bytes - self.stats.retained_bytes
                + self.entries[i].bytes.allocated;
            if free[i] && size <= room {
                assert(evictable(*self, size as int, free@, i as int));
                best = match best {
                    None => Some(i),
                    Some(v) => {
                        if self.is_colder(self.entries[i].expert, self.entries[v].expert) {
                            Some(i)
                        } else {
                            Some(v)
                        }
                    },
                };
            } else {
                assert(!evictable(*self, size as int, free@, i as int));
            }
            i += 1;
        }
        proof {
            match best {
                Some(v) => {
                    assert(coldest(*self, size as int, free@, v as int));
                    let w = choose|w: int| coldest(*self, size as int, free@, w);
                    lemma_coldest_unique(*self, size as int, free@, v as int, w);
                },
                None => {
                    assert forall|w: int| !coldest(*self, size as int, free@, w) by {
                        assert(!evictable(*self, size as int, free@, w));
                    }
                },
            }
        }
        best
    }

    fn is_colder(&self, a: usize, b: usize) -> (r: bool)
        requires
            self.wf(),
            a < self.frequency.len(),
            b < self.frequency.len(),
        ensures
            r == colder(*self, a as int, b as int),
    {
        self.frequency[a] < self.frequency[b] || (self.frequency[a] == self.frequency[b]
            && self.last[a] < self.last[b])
    }

    /// Decides what becomes of a buffer that is offered for an expert.
    pub fn admission_for(&self, expert: usize, given: &ReadBuffer, free: &[bool]) -> (a: Admission)
        requires
            self.wf(),
            free.len() == self.entries.len(),
        ensures
            a == admission(*self, expert, *given, free@),
            a matches Admission::Evict { at, .. } ==> coldest(
                *self,
                given.allocated as int,
                free@,
                at as int,
            ),
    {
        if given.data.len() == 0 || given.allocated > self.stats.capacity_bytes || expert
            >= self.frequency.len() {
            return Admission::Decline;
        }
        if self.frequency[expert] == 0 || self.find(expert).is_some() {
            return Admission::Decline;
        }
        if given.allocated <= self.stats.capacity_bytes - self.stats.retained_bytes {
            return Admission::Fits;
        }
        match self.find_victim(given.allocated, free) {
            None => Admission::Decline,
            Some(v) => {
                let old_expert: usize = self.entries[v].expert;
                let recent_tie = self.recent_ties && self.frequency[expert]
                    == self.frequency[old_expert] && self.last[expert] > self.last[old_expert];
                if self.frequency[expert] > self.frequency[old_expert] || recent_tie {
                    Admission::Evict { at: v, recent_tie }
                } else {
                    Admission::Decline
                }
            },
        }
    }

    /// Takes the evicted allocation's place: the entry is out of the list, and its handle
    /// was the last.
    fn replace(
        &mut self,
        expert: usize,
        bytes: &mut ReadBuffer,
        gone: ReadBuffer,
        recent_tie: bool,
    )
        requires
            expert < old(self).frequency.len(),
            !cached(old(self).entries@, expert),
            old(self).stats.retained_bytes == allocated_total(old(self).entries@) + gone.allocated,
            old(self).stats.retained_bytes - gone.allocated + old(bytes).allocated
                <= old(self).stats.capacity_bytes,
            old(self).frequency.len() == old(self).last.len(),
            old(self).decay_requests > 0,
            forall|i: int|
                0 <= i < old(self).entries.len() ==> (#[trigger] old(self).entries[i]).expert
                    < old(self).frequency.len(),
            forall|i: int, j: int|
                0 <= i < j < old(self).entries.len() ==> (#[trigger] old(self).entries[i]).expert
                    != (#[trigger] old(self).entries[j]).expert,
        ensures
            final(self).wf(),
            final(self).same_policy(*old(self)),
            final(self).history() == old(self).history(),
            extended(old(self).entries@, final(self).entries@, expert, *old(bytes)),
            *final(bytes) == gone,
            final(self).stats == (ExpertCacheStats {
                retained_bytes: (old(self).stats.retained_bytes - gone.allocated
                    + old(bytes).allocated) as usize,
                admissions: old(self).stats.admissions.wrapping_add(1),
                evictions: old(self).stats.evictions.wrapping_add(1),
                recent_tie_admissions: old(self).stats.recent_tie_admissions.wrapping_add(
                    if recent_tie {
                        1
                    } else {
                        0
                    },
                ),
                ..old(self).stats
            }),
    {
        proof {
            lemma_total_nonneg(self.entries@);
        }
        self.stats.retained_bytes = self.stats.retained_bytes - gone.allocated + bytes.allocated;
        self.stats.evictions = self.stats.evictions.wrapping_add(1);
        self.stats.recent_tie_admissions = self.stats.recent_tie_admissions.wrapping_add(
            if recent_tie {
                1
            } else {
                0
            },
        );
        self.stats.admissions = self.stats.admissions.wrapping_add(1);
        let mut incoming: ReadBuffer = gone;
        std::mem::swap(bytes, &mut incoming);
        self.append(expert, incoming);
    }

    /// Offers a fully read buffer for an expert, where `counts[i]` is the number of handles
    /// on entry `i`. An entry of more than one handle never leaves. Where an entry has to
    /// leave, its handle comes out of the cache, and what the handle gives up settles the
    /// offer.
    pub fn offer(&mut self, expert: usize, bytes: &mut ReadBuffer, counts: &[usize]) -> (s: OfferStep)
        requires
            old(self).wf(),
            counts.len() == old(self).entries.len(),
        ensures
            s is Settled <==> admission(*old(self), expert, *old(bytes), sole(counts@)) !is Evict,
            s is Settled ==> final(self).wf() && offer_settled(
                *old(self),
                *final(self),
                expert,
                *old(bytes),
                *final(bytes),
                counts@,
            ),
            s matches OfferStep::Reclaim { at, recent_tie, handle } ==> *final(bytes) == *old(bytes)
                && evicting(
                *old(self),
                *final(self),
                expert,
                *old(bytes),
                counts@,
                at,
                recent_tie,
                *handle,
            ),
    {
        let free: Vec<bool> = unleased(counts);
        match self.admission_for(expert, bytes, free.as_slice()) {
            Admission::Decline => OfferStep::Settled,
            Admission::Fits => {
                let mut incoming: ReadBuffer = ReadBuffer::empty();
                std::mem::swap(bytes, &mut incoming);
                self.stats.retained_bytes = self.stats.retained_bytes + incoming.allocated;
                self.stats.admissions = self.stats.admissions.wrapping_add(1);
                self.append(expert, incoming);
                OfferStep::Settled
            },
            Admission::Evict { at, recent_tie } => {
                let mut handle: Arc<ReadBuffer> = Arc::new(ReadBuffer::empty());
                std::mem::swap(&mut handle, &mut self.entries[at].bytes);
                OfferStep::Reclaim { at, recent_tie, handle }
            },
        }
    }

    /// Settles an offer for which entry `at` has to leave, by what its handle gave up: its
    /// buffer, which makes room and comes back in `bytes`, or the handle itself, which goes
    /// back in its place and declines the offer.
    pub fn settle_offer(
        &mut self,
        expert: usize,
        bytes: &mut ReadBuffer,
        counts: &[usize],
        at: usize,
        recent_tie: bool,
        answer: Result<ReadBuffer, Arc<ReadBuffer>>,
    )
        requires
            exists|pre: ExpertCache|
                #[trigger] evicting(
                    pre,
                    *old(self),
                    expert,
                    *old(bytes),
                    counts@,
                    at,
                    recent_tie,
                    given_up(answer),
                ),
        ensures
            final(self).wf(),
            forall|pre: ExpertCache|
                #[trigger] evicting(
                    pre,
                    *old(self),
                    expert,
                    *old(bytes),
                    counts@,
                    at,
                    recent_tie,
                    given_up(answer),
                ) ==> if answer is Ok {
                    offer_settled(
                        pre,
                        *final(self),
                        expert,
                        *old(bytes),
                        *final(bytes),
                        counts@,
                    )
                } else {
                    unchanged(pre, *final(self)) && *final(bytes) == *old(bytes)
                },
    {
        let ghost cur = *self;
        let ghost given = *bytes;
        let ghost value = given_up(answer);
        let ghost first = choose|pre: ExpertCache|
            #[trigger] evicting(pre, cur, expert, given, counts@, at, recent_tie, value);
        proof {
            assert(evictable(first, given.allocated as int, sole(counts@), at as int));
            lemma_total_bounds(first.entries@, at as int);
            lemma_total_without(first.entries@, at as int);
            assert forall|pre: ExpertCache|
                #[trigger] evicting(pre, cur, expert, given, counts@, at, recent_tie, value) implies
                pre.entries@ =~= first.entries@ by {
                lemma_same_before(pre, first, cur, expert, given, counts@, at, recent_tie, value);
            }
        }
        match answer {
            Err(mut back) => {
                std::mem::swap(&mut back, &mut self.entries[at].bytes);
                proof {
                    assert(self.entries@ =~= first.entries@);
                }
            },
            Ok(gone) => {
                let _entry: Entry = self.entries.swap_remove(at);
                proof {
                    assert(self.entries@ =~= without(first.entries@, at as int));
                    lemma_without_keeps(first.entries@, at as int);
                }
                self.replace(expert, bytes, gone, recent_tie);
            },
        }
    }

    /// Offers a fully read buffer for an expert, where `counts[i]` is the number of handles
    /// on entry `i`. An entry that is to leave is taken out of its handle first; where that
    /// fails, the buffer is declined. Whether it failed.
    pub fn retain_counted(&mut self, expert: usize, bytes: &mut ReadBuffer, counts: &[usize]) -> (held:
        bool)
        requires
            old(self).wf(),
            counts.len() == old(self).entries.len(),
        ensures
            final(self).wf(),
            !held ==> offer_settled(
                *old(self),
                *final(self),
                expert,
                *old(bytes),
                *final(bytes),
                counts@,
            ),
            held ==> {
                &&& admission(*old(self), expert, *old(bytes), sole(counts@)) is Evict
                &&& unchanged(*old(self), *final(self))
                &&& *final(bytes) == *old(bytes)
            },
    {
        let ghost pre = *self;
        let ghost given = *bytes;
        match self.offer(expert, bytes, counts) {
            OfferStep::Settled => false,
            OfferStep::Reclaim { at, recent_tie, handle } => {
                let answer: Result<ReadBuffer, Arc<ReadBuffer>> = reclaim(handle);
                let held: bool = answer.is_err();
                proof {
                    assert(evicting(
                        pre,
                        *self,
                        expert,
                        given,
                        counts@,
                        at,
                        recent_tie,
                        given_up(answer),
                    ));
                }
                self.settle_offer(expert, bytes, counts, at, recent_tie, answer);
                held
            },
        }
    }

    /// Offers a fully read buffer for an expert. An entry with an outstanding
    /// lease is never evicted; an evicted allocation comes back in `bytes`.
    pub fn retain(&mut self, expert: usize, bytes: &mut ReadBuffer)
        requires
            old(self).wf(),
        ensures
            final(self).wf(),
            exists|counts: Seq<usize>|
                #[trigger] offer_settled(
                    *old(self),
                    *final(self),
                    expert,
                    *old(bytes),
                    *final(bytes),
                    counts,
                ),
    {
        let mut counts: Vec<usize> = Vec::new();
        let mut i: usize = 0;
        while i < self.entries.len()
            invariant
                i <= self.entries.len(),
                counts.len() == i,
            decreases self.entries.len() - i,
        {
            counts.push(handles(&self.entries[i].bytes));
            i += 1;
        }
        let ghost pre = *self;
        let ghost given = *bytes;
        let held: bool = self.retain_counted(expert, bytes, counts.as_slice());
        proof {
            if held {
                let leased = Seq::new(pre.entries.len() as nat, |i: int| 2usize);
                assert(victim(pre, given.allocated as int, sole(leased)) is None) by {
                    assert forall|w: int| !coldest(
                        pre,
                        given.allocated as int,
                        sole(leased),
                        w,
                    ) by {
                        assert(!evictable(pre, given.allocated as int, sole(leased), w));
                    }
                }
                assert(offer_settled(pre, *self, expert, given, *bytes, leased));
            } else {
                assert(offer_settled(pre, *self, expert, given, *bytes, counts@));
            }
        }
    }
}

/// What an offer comes to before any handle is taken apart.
pub enum OfferStep {
    /// The buffer was kept in free room or declined.
    Settled,
    /// Entry `at` has to leave; this is its handle, and the entry holds an empty buffer.
    Reclaim { at: usize, recent_tie: bool, handle: Arc<ReadBuffer> },
}

/// The buffer behind what a handle gave up, itself or only the handle again.
pub open spec fn given_up(answer: Result<ReadBuffer, Arc<ReadBuffer>>) -> ReadBuffer {
    match answer {
        Ok(b) => b,
        Err(h) => *h,
    }
}

/// `cur` is `pre` with the handle of entry `at` taken out, which held `value`; under these
/// numbers of handles the entry leaves for the offered buffer.
pub open spec fn evicting(
    pre: ExpertCache,
    cur: ExpertCache,
    expert: usize,
    given: ReadBuffer,
    counts: Seq<usize>,
    at: usize,
    recent_tie: bool,
    value: ReadBuffer,
) -> bool {
    &&& pre.wf()
    &&& counts.len() == pre.entries.len()
    &&& at < pre.entries.len()
    &&& admission(pre, expert, given, sole(counts)) == (Admission::Evict { at, recent_tie })
    &&& *pre.entries[at as int].bytes == value
    &&& cur == (ExpertCache { entries: cur.entries, ..pre })
    &&& cur.entries@ =~= pre.entries@.update(
        at as int,
        Entry { expert: pre.entries[at as int].expert, bytes: cur.entries[at as int].bytes },
    )
}

proof fn lemma_same_before(
    a: ExpertCache,
    b: ExpertCache,
    cur: ExpertCache,
    expert: usize,
    given: ReadBuffer,
    counts: Seq<usize>,
    at: usize,
    recent_tie: bool,
    value: ReadBuffer,
)
    requires
        evicting(a, cur, expert, given, counts, at, recent_tie, value),
        evicting(b, cur, expert, given, counts, at, recent_tie, value),
    ensures
        a.entries@ =~= b.entries@,
        unchanged(a, b),
{
    assert(a.entries.len() == cur.entries.len() && b.entries.len() == cur.entries.len());
    assert forall|i: int| 0 <= i < a.entries.len() implies a.entries@[i] == b.entries@[i] by {
        if i != at {
            assert(cur.entries@[i] == a.entries@[i]);
            assert(cur.entries@[i] == b.entries@[i]);
        } else {
            assert(cur.entries@[i].expert == a.entries@[i].expert);
            assert(cur.entries@[i].expert == b.entries@[i].expert);
        }
    }
}

/// Which entries nobody leases, from the number of handles on each.
pub fn unleased(counts: &[usize]) -> (free: Vec<bool>)
    ensures
        free.len() == counts.len(),
        forall|i: int| 0 <= i < free.len() ==> #[trigger] free[i] == (counts[i] == 1),
        free@ =~= sole(counts@),
{
    let mut free: Vec<bool> = Vec::new();
    let mut i: usize = 0;
    while i < counts.len()
        invariant
            i <= counts.len(),
            free.len() == i,
            forall|j: int| 0 <= j < i ==> #[trigger] free[j] == (counts[j] == 1),
        decreases counts.len() - i,
    {
        free.push(counts[i] == 1);
        i += 1;
    }
    free
}

fn is_expert(a: Option<usize>, expert: usize) -> (b: bool)
    ensures
        b == (a == Some(expert)),
{
    match a {
        Some(e) => e == expert,
        None => false,
    }
}

proof fn lemma_without_keeps(s: Seq<Entry>, at: int)
    requires
        0 <= at < s.len(),
        forall|i: int, j: int|
            0 <= i < j < s.len() ==> (#[trigger] s[i]).expert != (#[trigger] s[j]).expert,
    ensures
        forall|e: usize| !cached(s, e) ==> !#[trigger] cached(without(s, at), e),
        forall|i: int|
            0 <= i < s.len() - 1 ==> (#[trigger] without(s, at)[i]) == s[if i == at {
                s.len() - 1
            } else {
                i
            }],
        forall|i: int, j: int|
            0 <= i < j < s.len() - 1 ==> (#[trigger] without(s, at)[i]).expert != (
            #[trigger] without(s, at)[j]).expert,
{
    let w = without(s, at);
    assert forall|e: usize| !cached(s, e) implies !#[trigger] cached(w, e) by {
        if cached(w, e) {
            let i = choose|i: int| 0 <= i < w.len() && (#[trigger] w[i]).expert == e;
            let k = if i == at {
                s.len() - 1
            } else {
                i
            };
            assert(s[k].expert == e);
        }
    }
}

/// An admitted expert is served with its bytes by the next lookup.
pub proof fn law_admitted_expert_is_served(
    pre: ExpertCache,
    post: ExpertCache,
    expert: usize,
    given: ReadBuffer,
    free: Seq<bool>,
)
    requires
        pre.wf(),
        post.wf(),
        free.len() == pre.entries.len(),
        offered(pre, post, expert, given, free),
        admission(pre, expert, given, free) !is Decline,
    ensures
        buffer_of(post.entries@, expert) == Some(given),
{
    let n = post.entries@.len() - 1;
    assert(post.entries@[n].expert == expert);
    let i = choose|i: int|
        0 <= i < post.entries@.len() && (#[trigger] post.entries@[i]).expert == expert;
    if i < n {
        assert(post.entries[i].expert != post.entries[n].expert);
    }
}

/// What leaves for an admitted expert is leased by nobody and was not asked for
/// more often; where it was asked for as often, the policy admits ties and it was
/// asked for longer ago. No other entry leaves.
pub proof fn law_eviction_takes_the_coldest_free_entry(
    pre: ExpertCache,
    post: ExpertCache,
    expert: usize,
    given: ReadBuffer,
    free: Seq<bool>,
)
    requires
        pre.wf(),
        free.len() == pre.entries.len(),
        offered(pre, post, expert, given, free),
    ensures
        forall|i: int|
            0 <= i < pre.entries.len() && !cached(
                post.entries@,
                (#[trigger] pre.entries[i]).expert,
            ) ==> {
                let old = pre.entries[i].expert as int;
                &&& free[i]
                &&& pre.frequency[old] <= pre.frequency[expert as int]
                &&& pre.frequency[old] == pre.frequency[expert as int] ==> pre.recent_ties
                    && pre.last[old] < pre.last[expert as int]
                &&& forall|j: int| #[trigger]
                    evictable(pre, given.allocated as int, free, j) ==> !colder(
                        pre,
                        pre.entries[j].expert as int,
                        old,
                    )
            },
{
    let a = admission(pre, expert, given, free);
    assert forall|i: int|
        0 <= i < pre.entries.len() && !cached(
            post.entries@,
            (#[trigger] pre.entries[i]).expert,
        ) implies {
        let old = pre.entries[i].expert as int;
        &&& free[i]
        &&& pre.frequency[old] <= pre.frequency[expert as int]
        &&& pre.frequency[old] == pre.frequency[expert as int] ==> pre.recent_ties && pre.last[old]
            < pre.last[expert as int]
        &&& forall|j: int| #[trigger]
            evictable(pre, given.allocated as int, free, j) ==> !colder(
                pre,
                pre.entries[j].expert as int,
                old,
            )
    } by {
        match a {
            Admission::Decline => {
                assert(post.entries@[i].expert == pre.entries[i].expert);
            },
            Admission::Fits => {
                assert(post.entries@.drop_last()[i] == pre.entries@[i]);
                assert(post.entries@[i].expert == pre.entries[i].expert);
            },
            Admission::Evict { at, .. } => {
                let w = without(pre.entries@, at as int);
                let v = victim(pre, given.allocated as int, free)->0;
                assert(coldest(pre, given.allocated as int, free, v));
                lemma_without_keeps(pre.entries@, at as int);
                if i != at {
                    let k = if i == pre.entries.len() - 1 {
                        at as int
                    } else {
                        i
                    };
                    assert(w[k] == pre.entries@[i]);
                    assert(post.entries@.drop_last()[k] == w[k]);
                    assert(post.entries@[k].expert == pre.entries[i].expert);
                }
            },
        }
    }
}

proof fn lemma_next_rank(
    c: ExpertCache,
    predictions: Seq<usize>,
    from: int,
    a: Option<usize>,
    b: Option<usize>,
)
    requires
        0 <= from <= predictions.len(),
    ensures
        from <= next_rank(c, predictions, from, a, b) <= predictions.len(),
        next_rank(c, predictions, from, a, b) < predictions.len() ==> {
            let e = predictions[next_rank(c, predictions, from, a, b)];
            fresh(c, e) && a != Some(e) && b != Some(e)
        },
    decreases predictions.len() - from,
{
    if from < predictions.len() {
        if !(fresh(c, predictions[from]) && a != Some(predictions[from]) && b != Some(
            predictions[from],
        )) {
            lemma_next_rank(c, predictions, from + 1, a, b);
        }
    }
}

/// An offer never takes an entry that somebody leases, and what it takes comes back in the
/// caller's buffer.
pub proof fn law_leased_entry_stays_and_evicted_bytes_come_back(
    pre: ExpertCache,
    post: ExpertCache,
    expert: usize,
    given: ReadBuffer,
    after: ReadBuffer,
    counts: Seq<usize>,
    i: int,
)
    requires
        pre.wf(),
        offer_settled(pre, post, expert, given, after, counts),
        0 <= i < pre.entries.len(),
    ensures
        counts[i] != 1 ==> cached(post.entries@, pre.entries[i].expert),
        !cached(post.entries@, pre.entries[i].expert) ==> after == *pre.entries[i].bytes,
{
    law_eviction_takes_the_coldest_free_entry(pre, post, expert, given, sole(counts));
    let e = pre.entries[i].expert;
    if !cached(post.entries@, e) {
        match admission(pre, expert, given, sole(counts)) {
            Admission::Decline => {
                assert(post.entries@[i] == pre.entries@[i]);
            },
            Admission::Fits => {
                assert(post.entries@[i] == pre.entries@[i]);
            },
            Admission::Evict { at, .. } => {
                if i != at {
                    let n = pre.entries.len() - 1;
                    if i < n {
                        assert(without(pre.entries@, at as int)[i] == pre.entries@[i]);
                        assert(post.entries@[i] == pre.entries@[i]);
                    } else {
                        assert(without(pre.entries@, at as int)[at as int] == pre.entries@[n]);
                        assert(post.entries@[at as int] == pre.entries@[n]);
                    }
                }
            },
        }
    }
}

/// Predictions name distinct experts that are not cached, and fill their places in
/// order.
pub proof fn law_predictions_are_distinct_and_uncached(
    c: ExpertCache,
    predictions: Seq<usize>,
    second_rank_ceiling: int,
    third: bool,
)
    requires
        c.wf(),
    ensures
        ({
            let (a, b, d) = predicted(c, predictions, second_rank_ceiling, third);
            &&& a matches Some(e) ==> fresh(c, e) && predictions.contains(e)
            &&& b matches Some(e) ==> fresh(c, e) && predictions.contains(e) && a is Some && a
                != b
            &&& d matches Some(e) ==> fresh(c, e) && predictions.contains(e) && b is Some && a
                != d && b != d && third
        }),
{
    let n = predictions.len();
    lemma_next_rank(c, predictions, 0, None, None);
    let r0 = next_rank(c, predictions, 0, None, None);
    if r0 < n {
        let first = Some(predictions[r0]);
        lemma_next_rank(c, predictions, r0 + 1, first, None);
        let r1 = next_rank(c, predictions, r0 + 1, first, None);
        if r1 < n {
            lemma_next_rank(c, predictions, r1 + 1, first, Some(predictions[r1]));
        }
    }
}

// ------------------------------------------------------------ what the policy does

/// A request moves the clock on by one and dates its expert. Its count rises by one;
/// every count is first halved, rounded up, where the clock reaches a multiple of the
/// decay period.
pub proof fn law_a_request_is_counted_and_dated(h: History, decay: u64, expert: usize, i: int)
    requires
        decay > 0,
        h.frequency.len() == h.last.len(),
        expert < h.frequency.len(),
        0 <= i < h.frequency.len(),
        h.clock < u64::MAX,
        h.frequency[i] < u64::MAX,
    ensures
        ({
            let after = observed(h, decay, expert);
            let decays = (h.clock + 1) % (decay as int) == 0;
            let more: int = if i == expert {
                1
            } else {
                0
            };
            &&& after.clock == h.clock + 1
            &&& after.last[i] == if i == expert {
                (h.clock + 1) as u64
            } else {
                h.last[i]
            }
            &&& !decays ==> after.frequency[i] == h.frequency[i] + more && after.decays == h.decays
            &&& decays ==> h.frequency[i] <= 2 * (after.frequency[i] - more) <= h.frequency[i] + 1
            &&& decays && h.decays < u64::MAX ==> after.decays == h.decays + 1
            &&& after.frequency.len() == h.frequency.len()
            &&& after.last.len() == h.last.len()
        }),
{
}

/// A count is halved to the nearest whole number that is not below the half.
pub proof fn law_halving_rounds_up(frequency: Seq<u64>, i: int)
    requires
        0 <= i < frequency.len(),
        frequency[i] < u64::MAX,
    ensures
        halved(frequency).len() == frequency.len(),
        frequency[i] <= 2 * halved(frequency)[i] <= frequency[i] + 1,
{
}

/// A hit is a request for an expert that is cached.
pub proof fn law_hits_are_the_cached_requests(entries: Seq<Entry>, experts: Seq<usize>)
    ensures
        hits_of(entries, experts) == experts.filter(|e: usize| cached(entries, e)).len(),
        hits_of(entries, experts) <= experts.len(),
    decreases experts.len(),
{
    reveal(Seq::filter);
    if experts.len() > 0 {
        law_hits_are_the_cached_requests(entries, experts.drop_last());
    }
}

/// The bytes that hits served: those of each request for a cached expert are added.
pub proof fn law_hit_bytes_add_up(entries: Seq<Entry>, experts: Seq<usize>, e: usize, i: int)
    requires
        forall|x: int, y: int|
            0 <= x < y < entries.len() ==> (#[trigger] entries[x]).expert != (
            #[trigger] entries[y]).expert,
        0 <= i < entries.len(),
    ensures
        hit_bytes_of(entries, Seq::empty()) == 0,
        entries[i].expert == e ==> hit_bytes_of(entries, experts.push(e)) == hit_bytes_of(
            entries,
            experts,
        ) + entries[i].bytes.data.len(),
        !cached(entries, e) ==> hit_bytes_of(entries, experts.push(e)) == hit_bytes_of(
            entries,
            experts,
        ),
{
    assert(experts.push(e).drop_last() =~= experts);
    if entries[i].expert == e {
        assert(cached(entries, e));
        let j = choose|j: int| 0 <= j < entries.len() && (#[trigger] entries[j]).expert == e;
        if j < i {
            assert(entries[j].expert != entries[i].expert);
        }
        if i < j {
            assert(entries[i].expert != entries[j].expert);
        }
    }
}

/// Every request of a lookup is a hit or a miss, and nothing else is counted.
pub proof fn law_a_lookup_counts_every_request(
    before: ExpertCache,
    after: ExpertCache,
    experts: Seq<usize>,
)
    requires
        looked_up(before, after, experts),
        before.stats.hits + experts.len() <= u64::MAX,
        before.stats.misses + experts.len() <= u64::MAX,
    ensures
        (after.stats.hits - before.stats.hits) + (after.stats.misses - before.stats.misses)
            == experts.len(),
        after.stats.hits - before.stats.hits == experts.filter(
            |e: usize| cached(before.entries@, e),
        ).len(),
        before.stats.hit_bytes + hit_bytes_of(before.entries@, experts) <= u64::MAX
            ==> after.stats.hit_bytes - before.stats.hit_bytes == hit_bytes_of(
            before.entries@,
            experts,
        ),
        after.stats.admissions == before.stats.admissions,
        after.stats.evictions == before.stats.evictions,
        after.stats.retained_bytes == before.stats.retained_bytes,
        after.stats.capacity_bytes == before.stats.capacity_bytes,
        after.history() == observed_all(before.history(), before.decay_requests, experts),
        after.entries == before.entries,
{
    law_hits_are_the_cached_requests(before.entries@, experts);
}

/// Decay periods are the powers of two from 4 to 65536.
pub proof fn law_decay_periods_are_powers_of_two(n: nat)
    ensures
        decay_allowed(n) <==> 4 <= n <= 65536 && exists|e: nat|
            #[trigger] vstd::arithmetic::power2::pow2(e) == n,
{
    vstd::arithmetic::power2::lemma2_to64();
    if 4 <= n <= 65536 && exists|e: nat| #[trigger] vstd::arithmetic::power2::pow2(e) == n {
        let e = choose|e: nat| #[trigger] vstd::arithmetic::power2::pow2(e) == n;
        if e > 16 {
            vstd::arithmetic::power2::lemma_pow2_strictly_increases(16, e);
        }
        if e < 2 {
            vstd::arithmetic::power2::lemma_pow2_strictly_increases(e, 2);
        }
    }
}

/// Whatever is asked for, the decay period is a power of two; what is not allowed
/// becomes 4096.
pub proof fn law_decay_period_of_a_setting(s: Seq<char>)
    ensures
        4 <= decay_of(s) <= 65536,
        exists|e: nat| #[trigger] vstd::arithmetic::power2::pow2(e) == decay_of(s),
        text::decimal(s) matches Some(n) && decay_allowed(n) ==> text::decimal(s) == Some(
            decay_of(s),
        ),
        !(text::decimal(s) matches Some(n) && decay_allowed(n)) ==> decay_of(s) == 4096,
{
    law_decay_periods_are_powers_of_two(decay_of(s));
}

/// A budget is given in mebibytes, up to 16384 of them; anything else switches the
/// cache off.
pub proof fn law_budget_of_a_setting(s: Seq<char>)
    ensures
        configured(s) % 1_048_576 == 0,
        configured(s) <= 17_179_869_184,
        text::decimal(s) matches Some(n) && n <= 16384 ==> configured(s) == text::decimal(s)->0
            * 1_048_576,
        !(text::decimal(s) matches Some(n) && n <= 16384) ==> configured(s) == 0,
{
}

/// Which bytes may enter: some, of an expert that was asked for and is not cached, and
/// no more of them than the whole budget. They enter without ado exactly where there
/// is room, and in place of another where its room is enough.
pub proof fn law_admission_needs_room(
    c: ExpertCache,
    expert: usize,
    given: ReadBuffer,
    free: Seq<bool>,
)
    requires
        c.wf(),
        free.len() == c.entries.len(),
    ensures
        ({
            let a = admission(c, expert, given, free);
            let wanted = given.data.len() > 0 && given.allocated <= c.stats.capacity_bytes && expert
                < c.frequency.len() && c.frequency[expert as int] > 0 && !cached(
                c.entries@,
                expert,
            );
            let room = c.stats.retained_bytes + given.allocated <= c.stats.capacity_bytes;
            &&& a is Fits <==> wanted && room
            &&& !wanted ==> a is Decline
            &&& a matches Admission::Evict { at, recent_tie } ==> {
                let old = c.entries[at as int].expert as int;
                &&& wanted && !room
                &&& at < c.entries.len() && free[at as int]
                &&& c.stats.retained_bytes - c.entries[at as int].bytes.allocated + given.allocated
                    <= c.stats.capacity_bytes
                &&& c.frequency[old] <= c.frequency[expert as int]
                &&& recent_tie <==> c.frequency[old] == c.frequency[expert as int]
                &&& recent_tie ==> c.recent_ties && c.last[old] < c.last[expert as int]
            }
        }),
{
    let a = admission(c, expert, given, free);
    if a is Evict {
        let v = victim(c, given.allocated as int, free)->0;
        assert(coldest(c, given.allocated as int, free, v));
    }
}

/// Where some free entry would make room and its expert was asked for less often, one is
/// evicted: the newcomer is not turned away.
pub proof fn law_a_hotter_expert_gets_in(
    c: ExpertCache,
    expert: usize,
    given: ReadBuffer,
    free: Seq<bool>,
    j: int,
)
    requires
        c.wf(),
        free.len() == c.entries.len(),
        given.data.len() > 0,
        given.allocated <= c.stats.capacity_bytes,
        expert < c.frequency.len(),
        !cached(c.entries@, expert),
        0 <= j < c.entries.len(),
        free[j],
        c.stats.retained_bytes - c.entries[j].bytes.allocated + given.allocated
            <= c.stats.capacity_bytes,
        c.frequency[c.entries[j].expert as int] < c.frequency[expert as int],
    ensures
        admission(c, expert, given, free) !is Decline,
{
    let size = given.allocated as int;
    assert(evictable(c, size, free, j));
    lemma_some_coldest(c, size, free, c.entries.len() as int, j);
    let v = victim(c, size, free)->0;
    assert(coldest(c, size, free, v));
    assert(!colder(c, c.entries[j].expert as int, c.entries[v].expert as int));
}

/// `v` is the first coldest among the evictable entries below `n`.
spec fn coldest_below(c: ExpertCache, size: int, free: Seq<bool>, n: int, v: int) -> bool {
    &&& evictable(c, size, free, v)
    &&& v < n
    &&& forall|j: int| #[trigger]
        evictable(c, size, free, j) && j < n ==> !colder(
            c,
            c.entries[j].expert as int,
            c.entries[v].expert as int,
        ) && (j < v ==> colder(c, c.entries[v].expert as int, c.entries[j].expert as int))
}

proof fn lemma_some_coldest(c: ExpertCache, size: int, free: Seq<bool>, n: int, j: int)
    requires
        0 <= j < n <= c.entries.len(),
        evictable(c, size, free, j),
    ensures
        exists|v: int| coldest_below(c, size, free, n, v),
        n == c.entries.len() ==> exists|v: int| coldest(c, size, free, v),
    decreases n,
{
    let last = n - 1;
    if exists|x: int| 0 <= x < last && #[trigger] evictable(c, size, free, x) {
        let x = choose|x: int| 0 <= x < last && #[trigger] evictable(c, size, free, x);
        lemma_some_coldest(c, size, free, last, x);
        let v = choose|v: int| coldest_below(c, size, free, last, v);
        if evictable(c, size, free, last) && colder(
            c,
            c.entries[last].expert as int,
            c.entries[v].expert as int,
        ) {
            assert(coldest_below(c, size, free, n, last));
        } else {
            assert(coldest_below(c, size, free, n, v));
        }
    } else {
        assert(j == last);
        assert(coldest_below(c, size, free, n, last));
    }
    let v = choose|v: int| coldest_below(c, size, free, n, v);
    if n == c.entries.len() {
        assert(coldest(c, size, free, v));
    }
}

/// Of two experts the colder is the one asked for less often, and of two asked for as
/// often the one asked for longer ago.
pub proof fn law_colder_is_rarer_or_older(c: ExpertCache, a: int, b: int)
    ensures
        c.frequency[a] < c.frequency[b] ==> colder(c, a, b) && !colder(c, b, a),
        c.frequency[a] == c.frequency[b] ==> (colder(c, a, b) <==> c.last[a] < c.last[b]),
{
}

/// The first prediction is the first predicted expert that is known and not cached, and
/// there is none only where every one is cached or unknown, or the cache is off.
pub proof fn law_first_prediction_is_the_best_uncached(
    c: ExpertCache,
    predictions: Seq<usize>,
    second_rank_ceiling: int,
    third: bool,
    i: int,
)
    requires
        c.wf(),
        0 <= i < predictions.len(),
        predictions[i] < c.frequency.len(),
        !cached(c.entries@, predictions[i]),
        forall|x: int|
            0 <= x < i ==> cached(c.entries@, #[trigger] predictions[x]) || predictions[x]
                >= c.frequency.len(),
    ensures
        c.stats.capacity_bytes > 0 ==> predicted(c, predictions, second_rank_ceiling, third).0
            == Some(predictions[i]),
        c.stats.capacity_bytes == 0 ==> predicted(c, predictions, second_rank_ceiling, third) == (
            None::<usize>,
            None::<usize>,
            None::<usize>,
        ),
{
    lemma_next_rank_is(c, predictions, 0, None, None, i);
}

/// The second prediction is the next such expert, if it ranks no later than the
/// ceiling, and the third the next one among the first three.
pub proof fn law_later_predictions_keep_to_their_ranks(
    c: ExpertCache,
    predictions: Seq<usize>,
    second_rank_ceiling: int,
    third: bool,
    i: int,
    j: int,
)
    requires
        c.wf(),
        c.stats.capacity_bytes > 0,
        0 <= i < j < predictions.len(),
        predictions[i] < c.frequency.len(),
        !cached(c.entries@, predictions[i]),
        predictions[j] < c.frequency.len(),
        !cached(c.entries@, predictions[j]),
        predictions[i] != predictions[j],
        forall|x: int|
            0 <= x < j && x != i ==> cached(c.entries@, #[trigger] predictions[x]) || predictions[x]
                >= c.frequency.len(),
    ensures
        j <= second_rank_ceiling ==> predicted(c, predictions, second_rank_ceiling, third).1
            == Some(predictions[j]),
        j > second_rank_ceiling ==> predicted(c, predictions, second_rank_ceiling, third).1 is None
            && predicted(c, predictions, second_rank_ceiling, third).2 is None,
        !third || j >= 2 ==> predicted(c, predictions, second_rank_ceiling, third).2 is None,
{
    lemma_next_rank_is(c, predictions, 0, None, None, i);
    lemma_next_rank_is(c, predictions, i + 1, Some(predictions[i]), None, j);
    lemma_next_rank(c, predictions, j + 1, Some(predictions[i]), Some(predictions[j]));
}

proof fn lemma_next_rank_is(
    c: ExpertCache,
    predictions: Seq<usize>,
    from: int,
    a: Option<usize>,
    b: Option<usize>,
    i: int,
)
    requires
        0 <= from <= i < predictions.len(),
        fresh(c, predictions[i]),
        a != Some(predictions[i]),
        b != Some(predictions[i]),
        forall|x: int| from <= x < i ==> !fresh(c, #[trigger] predictions[x]),
    ensures
        next_rank(c, predictions, from, a, b) == i,
    decreases i - from,
{
    if from < i {
        lemma_next_rank_is(c, predictions, from + 1, a, b, i);
    }
}

/// What an admission does to the counters: one admission more, one eviction more where an
/// entry left, and the bytes of what came and went.
pub proof fn law_an_offer_is_accounted(
    pre: ExpertCache,
    post: ExpertCache,
    expert: usize,
    given: ReadBuffer,
    free: Seq<bool>,
)
    requires
        pre.wf(),
        free.len() == pre.entries.len(),
        offered(pre, post, expert, given, free),
        pre.stats.admissions < u64::MAX,
        pre.stats.evictions < u64::MAX,
        pre.stats.recent_tie_admissions < u64::MAX,
    ensures
        ({
            let a = admission(pre, expert, given, free);
            let (admitted, evicted): (int, int) = match a {
                Admission::Decline => (0, 0),
                Admission::Fits => (1, 0),
                Admission::Evict { .. } => (1, 1),
            };
            let left: int = match a {
                Admission::Evict { at, .. } => pre.entries[at as int].bytes.allocated as int,
                _ => 0,
            };
            &&& post.stats.admissions == pre.stats.admissions + admitted
            &&& post.stats.evictions == pre.stats.evictions + evicted
            &&& post.stats.retained_bytes == pre.stats.retained_bytes - left + admitted
                * given.allocated
            &&& post.entries.len() == pre.entries.len() + admitted - evicted
            &&& post.stats.hits == pre.stats.hits
            &&& post.stats.misses == pre.stats.misses
        }),
{
    law_admission_needs_room(pre, expert, given, free);
    if admission(pre, expert, given, free) is Evict {
        let at = admission(pre, expert, given, free)->at as int;
        lemma_allocated_at_least(pre.entries@, at);
    }
}

proof fn lemma_allocated_at_least(entries: Seq<Entry>, at: int)
    requires
        0 <= at < entries.len(),
    ensures
        entries[at].bytes.allocated <= allocated_total(entries),
        0 <= allocated_total(entries),
    decreases entries.len(),
{
    let d = entries.drop_last();
    if at < d.len() {
        lemma_allocated_at_least(d, at);
        assert(d[at] == entries[at]);
    } else if d.len() > 0 {
        lemma_allocated_at_least(d, 0);
    }
}

/// What the entries retain: one more adds what it has allocated.
pub proof fn law_retained_bytes_add_up(entries: Seq<Entry>, e: Entry)
    ensures
        allocated_total(Seq::empty()) == 0,
        allocated_total(entries.push(e)) == allocated_total(entries) + e.bytes.allocated,
{
    assert(entries.push(e).drop_last() =~= entries);
}

/// Requests are observed one after the other.
pub proof fn law_requests_are_observed_in_order(
    h: History,
    decay: u64,
    experts: Seq<usize>,
    e: usize,
)
    ensures
        observed_all(h, decay, Seq::empty()) == h,
        observed_all(h, decay, experts.push(e)) == observed(
            observed_all(h, decay, experts),
            decay,
            e,
        ),
{
    assert(experts.push(e).drop_last() =~= experts);
}

/// What an expert is served with is what its entry holds.
pub proof fn law_an_entry_serves_its_expert(c: ExpertCache, i: int, expert: usize)
    requires
        c.wf(),
        0 <= i < c.entries.len(),
    ensures
        buffer_of(c.entries@, c.entries[i].expert) == Some(*c.entries[i].bytes),
        (forall|x: int| 0 <= x < c.entries.len() ==> (#[trigger] c.entries[x]).expert != expert)
            ==> buffer_of(c.entries@, expert) is None && !cached(c.entries@, expert),
{
    let e = c.entries[i].expert;
    assert(c.entries@[i].expert == e);
    let j = choose|j: int| 0 <= j < c.entries@.len() && (#[trigger] c.entries@[j]).expert == e;
    if j < i {
        assert(c.entries[j].expert != c.entries[i].expert);
    }
    if i < j {
        assert(c.entries[i].expert != c.entries[j].expert);
    }
    if forall|x: int| 0 <= x < c.entries.len() ==> (#[trigger] c.entries[x]).expert != expert {
        assert forall|x: int| 0 <= x < c.entries@.len() implies (
        #[trigger] c.entries@[x]).expert != expert by {
            assert(c.entries[x].expert != expert);
        }
    }
}

/// A preloaded expert is served from then on, and nothing else changes but the bytes that
/// are retained.
pub proof fn law_a_preloaded_expert_is_served(
    before: ExpertCache,
    after: ExpertCache,
    expert: usize,
    bytes: ReadBuffer,
    other: usize,
)
    requires
        before.wf(),
        after.wf(),
        preloaded(before, after, expert, bytes),
        before.stats.retained_bytes + bytes.allocated <= usize::MAX,
        other != expert,
    ensures
        buffer_of(after.entries@, expert) == Some(bytes),
        cached(before.entries@, other) <==> cached(after.entries@, other),
        after.stats.retained_bytes == before.stats.retained_bytes + bytes.allocated,
        after.stats.admissions == before.stats.admissions,
        after.stats.evictions == before.stats.evictions,
        after.stats.hits == before.stats.hits,
        after.stats.misses == before.stats.misses,
        after.history() == before.history(),
{
    let n = after.entries@.len() - 1;
    assert(after.entries@[n].expert == expert);
    law_an_entry_serves_its_expert(after, n, other);
    if cached(before.entries@, other) {
        let i = choose|i: int|
            0 <= i < before.entries@.len() && (#[trigger] before.entries@[i]).expert == other;
        assert(after.entries@.drop_last()[i] == before.entries@[i]);
        assert(after.entries@[i].expert == other);
    }
    if cached(after.entries@, other) {
        let i = choose|i: int|
            0 <= i < after.entries@.len() && (#[trigger] after.entries@[i]).expert == other;
        assert(after.entries@.drop_last()[i] == before.entries@[i]);
        assert(before.entries@[i].expert == other);
    }
}

/// A new cache has counted nothing.
pub proof fn law_a_new_cache_has_counted_nothing(capacity_bytes: usize)
    ensures
        ({
            let s = unused_stats(capacity_bytes);
            &&& s.capacity_bytes == capacity_bytes
            &&& s.retained_bytes == 0 && s.hits == 0 && s.hit_bytes == 0 && s.misses == 0
            &&& s.admissions == 0 && s.evictions == 0 && s.history_resets == 0
            &&& s.frequency_decays == 0 && s.recent_tie_admissions == 0
        }),
{
}

/// An offer changes neither the counts and dates of requests nor what lookups counted nor
/// the policy, and counts as a tie exactly an eviction that a tie decided.
pub proof fn law_an_offer_leaves_the_history(
    pre: ExpertCache,
    post: ExpertCache,
    expert: usize,
    given: ReadBuffer,
    free: Seq<bool>,
)
    requires
        offered(pre, post, expert, given, free),
        pre.stats.recent_tie_admissions < u64::MAX,
    ensures
        post.frequency@ == pre.frequency@,
        post.last@ == pre.last@,
        post.clock == pre.clock,
        post.decay_requests == pre.decay_requests,
        post.recent_ties == pre.recent_ties,
        post.stats.hit_bytes == pre.stats.hit_bytes,
        post.stats.capacity_bytes == pre.stats.capacity_bytes,
        post.stats.frequency_decays == pre.stats.frequency_decays,
        post.stats.recent_tie_admissions - pre.stats.recent_tie_admissions == match admission(
            pre,
            expert,
            given,
            free,
        ) {
            Admission::Evict { recent_tie, .. } => if recent_tie {
                1int
            } else {
                0
            },
            _ => 0,
        },
{
    assert(post.history().frequency == pre.history().frequency);
    assert(post.history().last == pre.history().last);
    assert(post.history().clock == pre.history().clock);
    assert(post.history().decays == pre.history().decays);
}

/// What an offer leaves in the caller's buffer: what was offered where it was declined,
/// nothing where it fit, and what made room for it where something did.
pub proof fn law_what_an_offer_leaves(
    pre: ExpertCache,
    expert: usize,
    given: ReadBuffer,
    free: Seq<bool>,
    after: ReadBuffer,
)
    requires
        left_over(pre, expert, given, free, after),
    ensures
        admission(pre, expert, given, free) is Decline ==> after == given,
        admission(pre, expert, given, free) is Fits ==> after.data.len() == 0 && after.allocated
            == 0,
        admission(pre, expert, given, free) matches Admission::Evict { at, .. } ==> after
            == *pre.entries[at as int].bytes,
{
}

/// A declined offer changes nothing.
pub proof fn law_a_declined_offer_changes_nothing(
    pre: ExpertCache,
    post: ExpertCache,
    expert: usize,
    given: ReadBuffer,
    free: Seq<bool>,
)
    requires
        offered(pre, post, expert, given, free),
        admission(pre, expert, given, free) is Decline,
    ensures
        post.entries@ =~= pre.entries@,
        post.stats == pre.stats,
        post.frequency@ == pre.frequency@,
        post.last@ == pre.last@,
        post.clock == pre.clock,
{
}

/// The policy of a cache: its period, its rule for ties, its budget and its experts.
pub proof fn law_caches_of_the_same_policy(a: ExpertCache, b: ExpertCache)
    ensures
        a.same_policy(b) <==> a.decay_requests == b.decay_requests && a.recent_ties == b.recent_ties
            && a.stats.capacity_bytes == b.stats.capacity_bytes && a.frequency.len()
            == b.frequency.len(),
        setting_text(None) =~= Seq::<char>::empty(),
{
}

} // verus!
