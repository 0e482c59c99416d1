//! The device backend of the unembed head: one compiled model.
use vstd::prelude::*;

use crate::bytes::{self, words};

verus! {

/// Counters of the head backend.
#[derive(Clone, Copy, PartialEq, Eq, Structural, Debug)]
pub struct OvHeadStats {
    pub calls: u64,
    pub call_ns: u64,
    pub fallbacks: u64,
}

/// Whether the model is there.
#[derive(Clone, Copy, PartialEq, Eq, Structural, Debug)]
pub enum HeadState {
    /// The model proved unusable.
    Unusable,
    /// The model is to be compiled.
    Compile,
    Ready,
}

/// The head backend of a process.
pub struct OvHead {
    /// Logits that a caller keeps.
    pub unpadded_vocab: usize,
    pub compiled: bool,
    pub failed: bool,
    pub noted: bool,
    pub stats: OvHeadStats,
}

/// How a call's output is judged.
pub enum HeadOutput {
    /// The logits.
    Accepted(Vec<u32>),
    /// Fewer logits than the vocabulary: the model is unusable.
    TooShort { report: bool },
}

impl OvHead {
    pub fn new(unpadded_vocab: usize) -> (h: OvHead)
        ensures
            h == (OvHead {
                unpadded_vocab,
                compiled: false,
                failed: false,
                noted: false,
                stats: (OvHeadStats { calls: 0, call_ns: 0, fallbacks: 0 }),
            }),
    {
        OvHead {
            unpadded_vocab,
            compiled: false,
            failed: false,
            noted: false,
            stats: OvHeadStats { calls: 0, call_ns: 0, fallbacks: 0 },
        }
    }

    pub fn stats(&self) -> (s: OvHeadStats)
        ensures
            s == self.stats,
    {
        self.stats
    }

    /// Whether the model is there.
    pub fn warm(&self) -> (s: HeadState)
        ensures
            s == (if self.failed {
                HeadState::Unusable
            } else if self.compiled {
                HeadState::Ready
            } else {
                HeadState::Compile
            }),
    {
        if self.failed {
            HeadState::Unusable
        } else if self.compiled {
            HeadState::Ready
        } else {
            HeadState::Compile
        }
    }

    /// Settles the compilation; whether a failure is to be reported.
    pub fn compile_settled(&mut self, ok: bool) -> (report: bool)
        ensures
            report == (!ok && !old(self).failed),
            *final(self) == (OvHead {
                compiled: old(self).compiled || ok,
                failed: old(self).failed || !ok,
                ..*old(self)
            }),
    {
        if ok {
            self.compiled = true;
            false
        } else {
            let report: bool = !self.failed;
            self.failed = true;
            report
        }
    }

    /// A call takes the host head because the model is unusable.
    pub fn declined(&mut self)
        ensures
            *final(self) == (OvHead {
                stats: (OvHeadStats {
                    fallbacks: old(self).stats.fallbacks.wrapping_add(1),
                    ..old(self).stats
                }),
                ..*old(self)
            }),
    {
        self.stats.fallbacks = self.stats.fallbacks.wrapping_add(1);
    }

    /// A call failed on the device: it is a fallback, reported once.
    pub fn call_failed(&mut self) -> (report: bool)
        ensures
            report == !old(self).noted,
            *final(self) == (OvHead {
                noted: true,
                stats: (OvHeadStats {
                    fallbacks: old(self).stats.fallbacks.wrapping_add(1),
                    ..old(self).stats
                }),
                ..*old(self)
            }),
    {
        let report: bool = !self.noted;
        self.noted = true;
        self.stats.fallbacks = self.stats.fallbacks.wrapping_add(1);
        report
    }

    /// Judges a call's output bytes: the first logits of the vocabulary, or too few,
    /// which makes the model unusable.
    pub fn logits(&mut self, out: &[u8], ns: u64) -> (r: HeadOutput)
        ensures
            out.len() / 4 >= old(self).unpadded_vocab ==> {
                &&& r matches HeadOutput::Accepted(v) && v.len() == old(self).unpadded_vocab
                    && forall|i: int|
                    0 <= i < v.len() ==> #[trigger] v[i] == bytes::number_at(out@, 4 * i, 4)
                &&& *final(self) == (OvHead {
                    stats: (OvHeadStats {
                        calls: old(self).stats.calls.wrapping_add(1),
                        call_ns: old(self).stats.call_ns.wrapping_add(ns),
                        ..old(self).stats
                    }),
                    ..*old(self)
                })
            },
            out.len() / 4 < old(self).unpadded_vocab ==> {
                &&& r == (HeadOutput::TooShort { report: !old(self).failed })
                &&& *final(self) == (OvHead {
                    failed: true,
                    stats: (OvHeadStats {
                        fallbacks: old(self).stats.fallbacks.wrapping_add(1),
                        ..old(self).stats
                    }),
                    ..*old(self)
                })
            },
    {
        let mut v: Vec<u32> = words(out);
        if v.len() < self.unpadded_vocab {
            let report: bool = !self.failed;
            self.failed = true;
            self.stats.fallbacks = self.stats.fallbacks.wrapping_add(1);
            return HeadOutput::TooShort { report };
        }
        v.truncate(self.unpadded_vocab);
        self.stats.calls = self.stats.calls.wrapping_add(1);
        self.stats.call_ns = self.stats.call_ns.wrapping_add(ns);
        HeadOutput::Accepted(v)
    }
}

} // verus!
