//! The per-expert device backend: one compiled model per expert, the least recently
//! used ones dropped.
//!
//! Keys pair a layer with an expert: routed experts by their id, shared ones after
//! them, and [`DENSE`] for a dense layer. A key whose model cannot be used is given
//! up; running out of device memory turns the whole backend off.
use vstd::prelude::*;

use crate::arith::{self, saturating_product};
use crate::id_set::IdSet;
use crate::lru_costs::{self, OvCache};
use crate::text::{
    self, chars_of, contains_text, is_word, numbered_name, parse_usize, parse_within, text_of,
};

verus! {

/// The expert id of a dense layer.
pub const DENSE: u32 = 0xffff_ffff;

/// The least estimate of a model's device bytes.
pub const LEAST_COST: u64 = 8_388_608;

/// Estimated device bytes of a model whose weights file has `len` bytes: 1.6 times
/// as many, at least 8 MiB.
pub open spec fn cost_of(len: u64) -> int {
    let scaled = arith::capped_product(len, 8);
    if scaled / 5 > LEAST_COST {
        scaled / 5
    } else {
        LEAST_COST as int
    }
}

pub fn expert_cost_bytes(len: u64) -> (c: u64)
    ensures
        c == cost_of(len),
{
    let scaled: u64 = saturating_product(len, 8) / 5;
    if scaled > LEAST_COST {
        scaled
    } else {
        LEAST_COST
    }
}

/// An error message of a device that ran out of memory.
pub fn is_fatal_resource_error(msg: &str) -> (b: bool)
    ensures
        b == text::holds_text(msg@, "resource unavailable"@),
{
    let v: Vec<char> = chars_of(msg);
    contains_text(v.as_slice(), "resource unavailable")
}

/// A count from its setting, or the default.
pub fn count_setting(setting: Option<&str>, default: usize) -> (n: usize)
    ensures
        n == match setting {
            Some(s) => match text::decimal_within(s@, usize::MAX as nat) {
                Some(v) => v,
                None => default as nat,
            },
            None => default as nat,
        },
{
    match setting {
        Some(s) => {
            let v: Vec<char> = chars_of(s);
            match parse_usize(v.as_slice()) {
                Some(n) => n,
                None => default,
            }
        },
        None => default,
    }
}

/// A 64-bit count from its setting, or the default.
pub fn budget_setting(setting: Option<&str>, default: u64) -> (n: u64)
    ensures
        n == match setting {
            Some(s) => match text::decimal_within(s@, u64::MAX as nat) {
                Some(v) => v,
                None => default as nat,
            },
            None => default as nat,
        },
{
    match setting {
        Some(s) => {
            let v: Vec<char> = chars_of(s);
            match parse_within(v.as_slice(), u64::MAX) {
                Some(n) => n,
                None => default,
            }
        },
        None => default,
    }
}

/// The device has memory of its own or shares the host's: anything but the CPU.
pub fn on_accelerator(device: &str) -> (b: bool)
    ensures
        b == !(text::lower_text(device@) =~= text::lower_text("CPU"@)),
{
    let v: Vec<char> = chars_of(device);
    !is_word(v.as_slice(), "CPU")
}

/// The folder of an expert's device model: a dense layer's, a shared expert's or a routed
/// one's.
pub open spec fn folder_of(eid: u32, num_experts: u32) -> Seq<char> {
    if eid == DENSE {
        "dense"@
    } else if eid >= num_experts {
        text::numbered_text("expert_shared"@, (eid - num_experts) as nat, 0, ""@)
    } else {
        text::numbered_text("expert_"@, eid as nat, 3, ""@)
    }
}

/// Names the folder of an expert's model within its layer's.
pub fn expert_folder(eid: u32, num_experts: u32) -> (s: String)
    ensures
        s@ == folder_of(eid, num_experts),
{
    if eid == DENSE {
        let v: Vec<char> = chars_of("dense");
        text_of(v.as_slice())
    } else if eid >= num_experts {
        numbered_name("expert_shared", (eid - num_experts) as u64, 0, "")
    } else {
        numbered_name("expert_", eid as u64, 3, "")
    }
}

/// A layer and an expert as one key; keys order by layer, then by expert.
pub open spec fn key(lid: u32, eid: u32) -> u64 {
    (lid * 0x1_0000_0000 + eid) as u64
}

/// The file of an expert's device model below the models' folder.
pub open spec fn model_path(lid: u32, eid: u32, num_experts: u32) -> Seq<char> {
    text::numbered_text("layer_"@, lid as nat, 2, "/"@) + folder_of(eid, num_experts)
        + "/openvino_model.xml"@
}

pub fn xml(lid: u32, eid: u32, num_experts: u32) -> (path: String)
    ensures
        path@ == model_path(lid, eid, num_experts),
{
    let layer: String = numbered_name("layer_", lid as u64, 2, "/");
    let folder: String = expert_folder(eid, num_experts);
    let mut v: Vec<char> = chars_of(layer.as_str());
    let mut f: Vec<char> = chars_of(folder.as_str());
    let mut t: Vec<char> = chars_of("/openvino_model.xml");
    v.append(&mut f);
    v.append(&mut t);
    text_of(v.as_slice())
}

pub fn key_of(lid: u32, eid: u32) -> (k: u64)
    ensures
        k == key(lid, eid),
{
    lid as u64 * 0x1_0000_0000 + eid as u64
}

/// Keys tell their pairs apart and order like them.
pub proof fn law_keys_order_like_pairs(l1: u32, e1: u32, l2: u32, e2: u32)
    ensures
        key(l1, e1) == key(l2, e2) <==> l1 == l2 && e1 == e2,
        key(l1, e1) < key(l2, e2) <==> l1 < l2 || (l1 == l2 && e1 < e2),
        key(l1, e1) / 0x1_0000_0000 == l1,
        key(l1, e1) % 0x1_0000_0000 == e1,
{
}

/// Counters of the per-expert backend.
#[derive(Clone, Copy, PartialEq, Eq, Structural, Debug)]
pub struct OvStats {
    pub hits: u64,
    pub misses: u64,
    pub hit_ns: u64,
    pub miss_ns: u64,
    pub fallbacks: u64,
}

/// What a lookup leads to.
#[derive(Clone, Copy, PartialEq, Eq, Structural, Debug)]
pub enum Lookup {
    /// Nothing: the backend is off or the key is given up.
    Unusable,
    /// The compiled model is there.
    Hit,
    /// The model is to be compiled.
    Compile,
}

/// What a failed compilation leads to.
#[derive(Clone, Copy, PartialEq, Eq, Structural, Debug)]
pub enum CompileFailure {
    /// The backend is off; `first` says that it was on before.
    Off { first: bool },
    /// The key is given up; `first` says that this is new.
    GivenUp { first: bool },
}

/// The per-expert backend of a process.
pub struct OvExperts {
    pub dim: usize,
    pub cache: OvCache,
    /// Keys that are given up.
    pub failed: IdSet,
    pub poisoned: bool,
    pub stats: OvStats,
}

impl OvExperts {
    pub open spec fn wf(self) -> bool {
        self.cache.wf() && self.failed.wf()
    }

    /// A backend for models of `dim` outputs, at least one model and `budget_mb`
    /// mebibytes of estimated device memory.
    pub fn from_dir(dim: usize, cache_entries: usize, cache_budget_mb: u64) -> (o: OvExperts)
        requires
            cache_entries <= usize::MAX / 128,
        ensures
            o.wf(),
            o.dim == dim,
            o.cache.entries() == Seq::<(u64, u64)>::empty(),
            o.cache.capacity() == if cache_entries > 0 {
                cache_entries as nat
            } else {
                1
            },
            o.cache.bytes == 0,
            o.cache.budget == arith::capped_product(cache_budget_mb, 1_048_576),
            forall|k: u64| !#[trigger] o.failed.has(k),
            !o.poisoned,
            o.stats == (OvStats { hits: 0, misses: 0, hit_ns: 0, miss_ns: 0, fallbacks: 0 }),
    {
        let entries: usize = if cache_entries > 0 {
            cache_entries
        } else {
            1
        };
        OvExperts {
            dim,
            cache: OvCache::new(entries, saturating_product(cache_budget_mb, 1_048_576)),
            failed: IdSet::new(),
            poisoned: false,
            stats: OvStats { hits: 0, misses: 0, hit_ns: 0, miss_ns: 0, fallbacks: 0 },
        }
    }

    pub fn stats(&self) -> (s: OvStats)
        ensures
            s == self.stats,
    {
        self.stats
    }

    /// Compiled models held and their estimated device bytes.
    pub fn cached(&self) -> (r: (usize, u64))
        ensures
            r.0 == self.cache.entries().len(),
            r.1 == self.cache.bytes,
    {
        self.cache.held()
    }

    /// Looks a key up. A hit becomes the most recently used.
    pub fn lookup(&mut self, lid: u32, eid: u32) -> (r: Lookup)
        requires
            old(self).wf(),
        ensures
            final(self).wf(),
            ({
                let k = key(lid, eid);
                let at = lru_costs::place(old(self).cache.entries(), k);
                &&& r == (if old(self).poisoned || old(self).failed.has(k) {
                    Lookup::Unusable
                } else if at is Some {
                    Lookup::Hit
                } else {
                    Lookup::Compile
                })
                &&& *final(self) == (OvExperts { cache: final(self).cache, ..*old(self) })
                &&& final(self).cache.bytes == old(self).cache.bytes
                &&& final(self).cache.budget == old(self).cache.budget
                &&& final(self).cache.capacity() == old(self).cache.capacity()
                &&& final(self).cache.entries() == (if r is Hit {
                    lru_costs::fronted(
                        old(self).cache.entries()[at->0],
                        old(self).cache.entries().remove(at->0),
                    )
                } else {
                    old(self).cache.entries()
                })
            }),
    {
        let k: u64 = key_of(lid, eid);
        if self.poisoned || self.failed.contains(k) {
            return Lookup::Unusable;
        }
        match self.cache.get(k) {
            Some(_) => Lookup::Hit,
            None => Lookup::Compile,
        }
    }

    /// Keeps a compiled model whose weights file has `bin_len` bytes. Returns the
    /// keys whose models left.
    pub fn compiled(&mut self, lid: u32, eid: u32, bin_len: u64) -> (left: Vec<u64>)
        requires
            old(self).wf(),
        ensures
            final(self).wf(),
            *final(self) == (OvExperts { cache: final(self).cache, ..*old(self) }),
            final(self).cache.budget == old(self).cache.budget,
            final(self).cache.capacity() == old(self).cache.capacity(),
            ({
                let k = key(lid, eid);
                let cost = cost_of(bin_len) as u64;
                let (after, given_back) = lru_costs::pushed(
                    old(self).cache.entries(),
                    old(self).cache.capacity(),
                    k,
                    cost,
                );
                let bytes = match given_back {
                    Some(e) => lru_costs::minus(old(self).cache.bytes, e.1),
                    None => old(self).cache.bytes,
                };
                &&& (final(self).cache.entries(), final(self).cache.bytes) == lru_costs::trimmed_to(
                    after,
                    lru_costs::plus(bytes, cost),
                    old(self).cache.budget,
                )
                &&& forall|x: u64|
                    #[trigger] left@.contains(x) <==> x != k && lru_costs::place(
                        old(self).cache.entries(),
                        x,
                    ) is Some && lru_costs::place(final(self).cache.entries(), x) is None
            }),
    {
        let cost: u64 = expert_cost_bytes(bin_len);
        self.cache.insert(key_of(lid, eid), cost)
    }

    /// Settles a failed compilation: a device out of memory turns the backend off and
    /// drops every model, any other failure gives the key up.
    pub fn compile_failed(&mut self, lid: u32, eid: u32, exhausted: bool, msg: &str) -> (r:
        CompileFailure)
        requires
            old(self).wf(),
        ensures
            final(self).wf(),
            ({
                let fatal = exhausted || text::holds_text(msg@, "resource unavailable"@);
                &&& fatal ==> {
                    &&& r == (CompileFailure::Off { first: !old(self).poisoned })
                    &&& final(self).poisoned
                    &&& *final(self) == (OvExperts {
                        poisoned: true,
                        cache: final(self).cache,
                        ..*old(self)
                    })
                    &&& final(self).cache.budget == old(self).cache.budget
                    &&& final(self).cache.capacity() == old(self).cache.capacity()
                    &&& old(self).poisoned ==> final(self).cache == old(self).cache
                    &&& !old(self).poisoned ==> final(self).cache.entries() == Seq::<
                        (u64, u64),
                    >::empty() && final(self).cache.bytes == 0
                }
                &&& !fatal ==> {
                    &&& r == (CompileFailure::GivenUp { first: !old(self).failed.has(key(lid, eid)) })
                    &&& forall|k: u64|
                        #[trigger] final(self).failed.has(k) <==> old(self).failed.has(k) || k
                            == key(lid, eid)
                    &&& *final(self) == (OvExperts { failed: final(self).failed, ..*old(self) })
                }
            }),
    {
        if exhausted || is_fatal_resource_error(msg) {
            let first: bool = !self.poisoned;
            if first {
                self.poisoned = true;
                self.cache.clear();
            }
            CompileFailure::Off { first }
        } else {
            let first: bool = self.failed.insert(key_of(lid, eid));
            CompileFailure::GivenUp { first }
        }
    }

    /// Gives a key up; whether this is new.
    pub fn mark_failed(&mut self, lid: u32, eid: u32) -> (first: bool)
        requires
            old(self).wf(),
        ensures
            final(self).wf(),
            first == !old(self).failed.has(key(lid, eid)),
            forall|k: u64|
                #[trigger] final(self).failed.has(k) <==> old(self).failed.has(k) || k == key(
                    lid,
                    eid,
                ),
            *final(self) == (OvExperts { failed: final(self).failed, ..*old(self) }),
    {
        self.failed.insert(key_of(lid, eid))
    }

    /// A call takes the host kernel.
    pub fn fell_back(&mut self)
        requires
            old(self).wf(),
        ensures
            final(self).wf(),
            *final(self) == (OvExperts {
                stats: (OvStats {
                    fallbacks: old(self).stats.fallbacks.wrapping_add(1),
                    ..old(self).stats
                }),
                ..*old(self)
            }),
    {
        self.stats.fallbacks = self.stats.fallbacks.wrapping_add(1);
    }

    /// Judges the length of a call's output: another one than the backend's gives the
    /// key up and makes the call a fallback. Whether the output stands.
    pub fn settle_output(&mut self, lid: u32, eid: u32, len: usize) -> (ok: bool)
        requires
            old(self).wf(),
        ensures
            final(self).wf(),
            ok == (len == old(self).dim),
            ok ==> *final(self) == *old(self),
            !ok ==> {
                &&& forall|k: u64|
                    #[trigger] final(self).failed.has(k) <==> old(self).failed.has(k) || k == key(
                        lid,
                        eid,
                    )
                &&& *final(self) == (OvExperts {
                    failed: final(self).failed,
                    stats: (OvStats {
                        fallbacks: old(self).stats.fallbacks.wrapping_add(1),
                        ..old(self).stats
                    }),
                    ..*old(self)
                })
            },
    {
        if len == self.dim {
            return true;
        }
        self.failed.insert(key_of(lid, eid));
        self.stats.fallbacks = self.stats.fallbacks.wrapping_add(1);
        false
    }

    /// Counts an answered call, by whether its model had to be compiled.
    pub fn call_done(&mut self, miss: bool, ns: u64)
        requires
            old(self).wf(),
        ensures
            final(self).wf(),
            *final(self) == (OvExperts {
                stats: (if miss {
                    OvStats {
                        misses: old(self).stats.misses.wrapping_add(1),
                        miss_ns: old(self).stats.miss_ns.wrapping_add(ns),
                        ..old(self).stats
                    }
                } else {
                    OvStats {
                        hits: old(self).stats.hits.wrapping_add(1),
                        hit_ns: old(self).stats.hit_ns.wrapping_add(ns),
                        ..old(self).stats
                    }
                }),
                ..*old(self)
            }),
    {
        if miss {
            self.stats.misses = self.stats.misses.wrapping_add(1);
            self.stats.miss_ns = self.stats.miss_ns.wrapping_add(ns);
        } else {
            self.stats.hits = self.stats.hits.wrapping_add(1);
            self.stats.hit_ns = self.stats.hit_ns.wrapping_add(ns);
        }
    }

    /// The keys that are given up as pairs, by layer and within it by expert.
    pub fn failed_keys(&self) -> (v: Vec<(u32, u32)>)
        requires
            self.wf(),
        ensures
            forall|i: int, j: int|
                0 <= i < j < v.len() ==> (#[trigger] v[i]).0 < (#[trigger] v[j]).0 || (v[i].0
                    == v[j].0 && v[i].1 < v[j].1),
            forall|l: u32, e: u32| #[trigger] v@.contains((l, e)) <==> self.failed.has(key(l, e)),
    {
        let mut v: Vec<(u32, u32)> = Vec::new();
        let mut i: usize = 0;
        while i < self.failed.ids.len()
            invariant
                self.wf(),
                i <= self.failed.ids.len(),
                v.len() == i,
                forall|x: int|
                    0 <= x < i ==> key((#[trigger] v[x]).0, v[x].1) == self.failed.ids[x],
            decreases self.failed.ids.len() - i,
        {
            let k: u64 = self.failed.ids[i];
            let l: u32 = (k / 0x1_0000_0000) as u32;
            let e: u32 = (k % 0x1_0000_0000) as u32;
            v.push((l, e));
            i += 1;
        }
        proof {
            assert forall|i: int, j: int| 0 <= i < j < v.len() implies (#[trigger] v[i]).0 < (
            #[trigger] v[j]).0 || (v[i].0 == v[j].0 && v[i].1 < v[j].1) by {
                assert(self.failed.ids[i] < self.failed.ids[j]);
                law_keys_order_like_pairs(v[i].0, v[i].1, v[j].0, v[j].1);
            }
            assert forall|l: u32, e: u32| #[trigger] v@.contains((l, e)) <==> self.failed.has(
                key(l, e),
            ) by {
                if v@.contains((l, e)) {
                    let x = choose|x: int| 0 <= x < v@.len() && v@[x] == (l, e);
                    assert(self.failed.ids@[x] == key(v[x].0, v[x].1));
                }
                if self.failed.has(key(l, e)) {
                    let x = choose|x: int|
                        0 <= x < self.failed.ids@.len() && self.failed.ids@[x] == key(l, e);
                    law_keys_order_like_pairs(v[x].0, v[x].1, l, e);
                    assert(v@[x] == (l, e));
                }
            }
        }
        v
    }
}

/// A compiled expert is charged eight fifths of its file, and never less than eight
/// mebibytes.
pub proof fn law_cost_of_an_expert(len: u64)
    ensures
        cost_of(len) >= 8_388_608,
        len <= 2_305_843_009_213_693_951 ==> {
            &&& cost_of(len) > 8_388_608 ==> 5 * cost_of(len) <= 8 * len < 5 * (cost_of(len) + 1)
            &&& cost_of(len) == 8_388_608 ==> 8 * len < 5 * (8_388_608 + 1)
        },
        len > 2_305_843_009_213_693_951 ==> cost_of(len) == 3_689_348_814_741_910_323,
{
}

/// Models lie in a folder for each layer, and in it one for each expert: routed ones by
/// number, shared ones counted from zero, the dense block by name.
pub proof fn law_folders_of_experts(eid: u32, num_experts: u32)
    ensures
        eid == 0xffff_ffff ==> folder_of(eid, num_experts) == "dense"@,
        eid < num_experts && eid != 0xffff_ffff ==> folder_of(eid, num_experts) =~= "expert_"@
            + text::padded_text(eid as nat, 3),
        num_experts <= eid < 0xffff_ffff ==> folder_of(eid, num_experts) =~= "expert_shared"@
            + text::decimal_text((eid - num_experts) as nat),
{
    reveal_strlit("");
}

/// The model of an expert lies in the folder of its layer, numbered with two digits at
/// least, in its own folder.
pub proof fn law_places_of_models(lid: u32, eid: u32, num_experts: u32)
    ensures
        model_path(lid, eid, num_experts) =~= "layer_"@ + text::padded_text(lid as nat, 2) + "/"@
            + folder_of(eid, num_experts) + "/openvino_model.xml"@,
{
}

} // verus!
