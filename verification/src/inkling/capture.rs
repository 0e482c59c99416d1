//! Bounded capture of residual states: one file per stream instance.
//!
//! A file starts with a 32-byte little-endian header: the magic text, the hidden
//! width, the pipeline rank, the slot and the prompt rows as 32-bit numbers, and the
//! sequence as a 64-bit one. Each position follows as a record: the sampled next
//! token as a 64-bit number (all bits set where nothing was sampled) and the hidden
//! state in half precision. A rewind cuts records off; a failure or an exhausted
//! budget stops the capture and leaves its files unfinished.
use vstd::prelude::*;

use crate::arith::{self, saturating_product};
use crate::bytes::{self, push_number};
use crate::text::{self, chars_of, parse_within, text_of, write_decimal};

verus! {

/// Bytes of a file's header.
pub const HEADER: u64 = 32;

/// Where the header holds the prompt rows.
pub const PROMPT_AT: u64 = 20;

/// Bytes that a token costs of the budget.
pub const TOKEN_COST: u64 = 12;

/// The token of a position where nothing was sampled.
pub const UNSAMPLED: u64 = 0xffff_ffff_ffff_ffff;

/// `INKCAP01`.
pub open spec fn magic() -> Seq<u8> {
    seq![0x49u8, 0x4e, 0x4b, 0x43, 0x41, 0x50, 0x30, 0x31]
}

/// The header of a new file.
pub open spec fn header_bytes(hidden: nat, rank: nat, slot: nat, sequence: nat) -> Seq<u8> {
    magic() + bytes::bytes_of(hidden, 4) + bytes::bytes_of(rank, 4) + bytes::bytes_of(slot, 4)
        + bytes::bytes_of(0, 4) + bytes::bytes_of(sequence, 8)
}

/// The bytes of half-precision values.
pub open spec fn halves_bytes(h: Seq<u16>) -> Seq<u8>
    decreases h.len(),
{
    if h.len() == 0 {
        Seq::empty()
    } else {
        halves_bytes(h.drop_last()) + bytes::bytes_of(h.last() as nat, 2)
    }
}

/// The record of a position that was not sampled.
pub open spec fn fresh_record(row: Seq<u16>) -> Seq<u8> {
    bytes::bytes_of(UNSAMPLED as nat, 8) + halves_bytes(row)
}

/// The records of the first `n` rows of width `hidden`.
pub open spec fn fresh_records(h: Seq<u16>, hidden: int, n: nat) -> Seq<u8>
    decreases n,
{
    if n == 0 {
        Seq::empty()
    } else {
        fresh_records(h, hidden, (n - 1) as nat) + fresh_record(
            h.subrange((n - 1) * hidden, n * hidden),
        )
    }
}

/// Where a position's record starts.
pub open spec fn record_at(pos: int, record_bytes: int) -> int {
    HEADER + pos * record_bytes
}

/// A file after `b` was written at `at`.
pub open spec fn written_at(file: Seq<u8>, at: int, b: Seq<u8>) -> Seq<u8> {
    Seq::new(
        (if file.len() < at + b.len() {
            at + b.len()
        } else {
            file.len() as int
        }) as nat,
        |i: int|
            if at <= i < at + b.len() {
                b[i - at]
            } else if i < file.len() {
                file[i]
            } else {
                0u8
            },
    )
}

/// An open stream.
pub struct StreamFile {
    pub slot: usize,
    pub sequence: u64,
    pub prompt_rows: usize,
}

/// What a token writes: the prompt rows into the header where it is the first, and
/// itself into its record.
pub struct TokenWrite {
    pub prompt: Option<Vec<u8>>,
    pub at: u64,
    pub token: Vec<u8>,
}

/// The capture of one process.
pub struct StateCapture {
    pub rank: u32,
    pub hidden: usize,
    pub record_bytes: u64,
    pub budget: u64,
    pub written: u64,
    pub sequence: u64,
    pub failed: bool,
    pub streams: Vec<StreamFile>,
}

/// The place of a slot's stream.
pub open spec fn stream_of(s: Seq<StreamFile>, slot: usize) -> Option<int>
    decreases s.len(),
{
    if s.len() == 0 {
        None
    } else if s.last().slot == slot {
        Some(s.len() - 1)
    } else {
        stream_of(s.drop_last(), slot)
    }
}

/// Which folder to capture into: the last rank's own one where it is set, else the
/// boundary one; nothing for an empty name.
pub fn capture_folder<'a>(
    rank: u32,
    total: u32,
    last: Option<&'a str>,
    boundary: Option<&'a str>,
) -> (r: Option<&'a str>)
    requires
        rank < u32::MAX,
    ensures
        r == ({
            let chosen = if rank + 1 == total && last is Some {
                last
            } else {
                boundary
            };
            match chosen {
                Some(s) if s@.len() > 0 => Some(s),
                _ => None,
            }
        }),
{
    let chosen: Option<&'a str> = if rank + 1 == total && last.is_some() {
        last
    } else {
        boundary
    };
    match chosen {
        Some(s) => {
            let v: Vec<char> = chars_of(s);
            if v.len() > 0 {
                Some(s)
            } else {
                None
            }
        },
        None => None,
    }
}

/// The byte budget from its setting in mebibytes; 2048 where it is not a number.
pub fn budget_from(setting: Option<&str>) -> (b: u64)
    ensures
        b == arith::capped_product(
            match setting {
                Some(s) => match text::decimal_within(s@, u64::MAX as nat) {
                    Some(n) => n as u64,
                    None => 2048,
                },
                None => 2048,
            },
            1_048_576,
        ),
{
    let mb: u64 = match setting {
        Some(s) => {
            let v: Vec<char> = chars_of(s);
            match parse_within(v.as_slice(), u64::MAX) {
                Some(n) => n,
                None => 2048,
            }
        },
        None => 2048,
    };
    saturating_product(mb, 1_048_576)
}

/// The stream of a slot is the same in both lists, or missing in both.
pub open spec fn same_stream(a: Seq<StreamFile>, b: Seq<StreamFile>, slot: usize) -> bool {
    match (stream_of(a, slot), stream_of(b, slot)) {
        (Some(i), Some(j)) => a[i] == b[j],
        (None, None) => true,
        _ => false,
    }
}

impl StateCapture {
    pub open spec fn wf(self) -> bool {
        &&& self.hidden > 0
        &&& self.record_bytes == 8 + 2 * self.hidden
        &&& forall|i: int, j: int|
            0 <= i < j < self.streams.len() ==> (#[trigger] self.streams[i]).slot != (
            #[trigger] self.streams[j]).slot
        &&& self.failed ==> self.streams.len() == 0
    }

    /// `bytes` more are within the budget.
    pub open spec fn affords(self, bytes: int) -> bool {
        self.written + bytes <= self.budget
    }

    /// The stop after a failure: no stream is open any more.
    pub open spec fn stopped(self, post: StateCapture, written: int) -> bool {
        &&& post.failed
        &&& post.streams.len() == 0
        &&& post.rank == self.rank
        &&& post.hidden == self.hidden
        &&& post.record_bytes == self.record_bytes
        &&& post.budget == self.budget
        &&& post.written == written
        &&& post.sequence == self.sequence
    }

    /// A capture into a folder that holds `written` bytes already.
    pub fn new(rank: u32, hidden: usize, budget: u64, written: u64) -> (c: StateCapture)
        requires
            hidden > 0,
            8 + 2 * hidden <= u64::MAX,
        ensures
            c.wf(),
            c.rank == rank,
            c.hidden == hidden,
            c.budget == budget,
            c.written == written,
            c.sequence == 0,
            !c.failed,
            c.streams.len() == 0,
    {
        StateCapture {
            rank,
            hidden,
            record_bytes: 8 + 2 * hidden as u64,
            budget,
            written,
            sequence: 0,
            failed: false,
            streams: Vec::new(),
        }
    }

    fn reserve(&mut self, bytes: u64) -> (ok: bool)
        requires
            old(self).wf(),
        ensures
            final(self).wf(),
            ok == old(self).affords(bytes as int),
            *final(self) == (StateCapture {
                written: if ok {
                    (old(self).written + bytes) as u64
                } else {
                    old(self).written
                },
                ..*old(self)
            }),
    {
        if self.written > self.budget || bytes > self.budget - self.written {
            return false;
        }
        self.written = self.written + bytes;
        true
    }

    /// Stops the capture after a failure.
    pub fn stop(&mut self)
        requires
            old(self).wf(),
        ensures
            final(self).wf(),
            old(self).stopped(*final(self), old(self).written as int),
    {
        self.failed = true;
        self.streams = Vec::new();
    }

    fn find(&self, slot: usize) -> (at: Option<usize>)
        requires
            self.wf(),
        ensures
            match at {
                Some(i) => stream_of(self.streams@, slot) == Some(i as int) && i
                    < self.streams.len() && self.streams[i as int].slot == slot,
                None => stream_of(self.streams@, slot) is None,
            },
    {
        let mut n: usize = self.streams.len();
        proof {
            assert(self.streams@.take(n as int) =~= self.streams@);
        }
        while n > 0
            invariant
                n <= self.streams.len(),
                stream_of(self.streams@, slot) == stream_of(self.streams@.take(n as int), slot),
            decreases n,
        {
            proof {
                assert(self.streams@.take(n as int).drop_last() =~= self.streams@.take(n - 1));
            }
            if self.streams[n - 1].slot == slot {
                return Some(n - 1);
            }
            n -= 1;
        }
        None
    }

    /// Opens a stream for a slot. Returns the header of its new file; nothing once
    /// the capture has stopped, or where the budget is exhausted.
    pub fn open(&mut self, slot: usize) -> (header: Option<Vec<u8>>)
        requires
            old(self).wf(),
            old(self).sequence < u64::MAX,
        ensures
            final(self).wf(),
            header is Some <==> !old(self).failed && old(self).affords(HEADER as int),
            old(self).failed ==> *final(self) == *old(self),
            !old(self).failed && !old(self).affords(HEADER as int) ==> old(self).stopped(
                *final(self),
                old(self).written as int,
            ),
            header matches Some(h) ==> {
                &&& h@ =~= header_bytes(
                    old(self).hidden as nat,
                    old(self).rank as nat,
                    slot as nat,
                    old(self).sequence as nat + 1,
                )
                &&& *final(self) == (StateCapture {
                    sequence: (old(self).sequence + 1) as u64,
                    written: (old(self).written + HEADER) as u64,
                    streams: final(self).streams,
                    ..*old(self)
                })
                &&& stream_of(final(self).streams@, slot) matches Some(i) && final(self).streams[i]
                    == (StreamFile { slot, sequence: final(self).sequence, prompt_rows: 0 })
                &&& forall|s: usize| #![trigger stream_of(final(self).streams@, s)]
                    s != slot ==> same_stream(old(self).streams@, final(self).streams@, s)
            },
    {
        if self.failed {
            return None;
        }
        if !self.reserve(HEADER) {
            self.stop();
            return None;
        }
        self.sequence = self.sequence + 1;
        let mut h: Vec<u8> = vec![0x49, 0x4e, 0x4b, 0x43, 0x41, 0x50, 0x30, 0x31];
        assert(h@ =~= magic());
        push_number(&mut h, self.hidden as u64, 4);
        push_number(&mut h, self.rank as u64, 4);
        push_number(&mut h, slot as u64, 4);
        push_number(&mut h, 0, 4);
        push_number(&mut h, self.sequence, 8);
        let ghost before = self.streams@;
        let fresh = StreamFile { slot, sequence: self.sequence, prompt_rows: 0 };
        match self.find(slot) {
            Some(i) => {
                self.streams.set(i, fresh);
                proof {
                    lemma_stream_of(before);
                    lemma_stream_of(self.streams@);
                    assert(self.streams@[i as int].slot == slot);
                    assert forall|s: usize|
                        s != slot && #[trigger] stream_of(before, s) is Some implies stream_of(
                        self.streams@,
                        s,
                    ) is Some by {
                        let j = stream_of(before, s)->0;
                        assert(self.streams@[j].slot == s);
                    }
                    let k = stream_of(self.streams@, slot)->0;
                    assert(k == i) by {
                        if k < i {
                            assert(before[k].slot != before[i as int].slot);
                        } else if i < k {
                            assert(before[i as int].slot != before[k].slot);
                        }
                    }
                }
            },
            None => {
                self.streams.push(fresh);
                proof {
                    lemma_stream_of(before);
                    lemma_stream_of(self.streams@);
                    assert(self.streams@.drop_last() =~= before);
                    assert(self.streams@[self.streams@.len() - 1].slot == slot);
                    assert forall|s: usize|
                        s != slot && #[trigger] stream_of(before, s) is Some implies stream_of(
                        self.streams@,
                        s,
                    ) is Some by {
                        let j = stream_of(before, s)->0;
                        assert(self.streams@[j].slot == s);
                    }
                }
            },
        }
        Some(h)
    }

    /// Captures hidden rows of a slot from position `pos` on. Returns where to write
    /// and what; nothing once the capture has stopped, or where it stops because the
    /// budget is exhausted or the slot is not open.
    pub fn rows(&mut self, slot: usize, pos: usize, hidden: &[u16]) -> (w: Option<(u64, Vec<u8>)>)
        requires
            old(self).wf(),
            (hidden.len() / old(self).hidden) * old(self).record_bytes <= u64::MAX,
            record_at(pos as int, old(self).record_bytes as int) <= u64::MAX,
        ensures
            final(self).wf(),
            ({
                let n = (hidden.len() / old(self).hidden) as int;
                let cost = n * old(self).record_bytes;
                let open = stream_of(old(self).streams@, slot) is Some;
                &&& w is Some <==> !old(self).failed && old(self).affords(cost) && open
                &&& old(self).failed ==> *final(self) == *old(self)
                &&& !old(self).failed && !old(self).affords(cost) ==> old(self).stopped(
                    *final(self),
                    old(self).written as int,
                )
                &&& !old(self).failed && old(self).affords(cost) && !open ==> old(self).stopped(
                    *final(self),
                    old(self).written + cost,
                )
                &&& w matches Some((at, b)) ==> {
                    &&& at == record_at(pos as int, old(self).record_bytes as int)
                    &&& b@ =~= fresh_records(hidden@, old(self).hidden as int, n as nat)
                    &&& *final(self) == (StateCapture {
                        written: (old(self).written + cost) as u64,
                        ..*old(self)
                    })
                }
            }),
    {
        if self.failed {
            return None;
        }
        let n: usize = hidden.len() / self.hidden;
        let cost: u64 = n as u64 * self.record_bytes;
        if !self.reserve(cost) {
            self.stop();
            return None;
        }
        if self.find(slot).is_none() {
            self.stop();
            return None;
        }
        assert(pos * self.record_bytes >= 0) by (nonlinear_arith);
        let at: u64 = HEADER + pos as u64 * self.record_bytes;
        let h: usize = self.hidden;
        let mut b: Vec<u8> = Vec::new();
        let mut r: usize = 0;
        let mut base: usize = 0;
        proof {
            vstd::arithmetic::div_mod::lemma_fundamental_div_mod(
                hidden.len() as int,
                h as int,
            );
            assert(h * n == n * h) by (nonlinear_arith);
        }
        while r < n
            invariant
                r <= n,
                h > 0,
                n * h <= hidden.len(),
                base == r * h,
                b@ =~= fresh_records(hidden@, h as int, r as nat),
            decreases n - r,
        {
            assert((r + 1) * h == r * h + h && (r + 1) * h <= n * h) by (nonlinear_arith)
                requires
                    r + 1 <= n,
            ;
            let ghost start = b@;
            push_number(&mut b, UNSAMPLED, 8);
            let ghost row = hidden@.subrange(r * h, (r + 1) * h);
            let ghost headed = b@;
            let mut c: usize = 0;
            proof {
                assert(row.take(0) =~= Seq::<u16>::empty());
            }
            while c < h
                invariant
                    c <= h,
                    base == r * h,
                    base + h <= hidden.len(),
                    row == hidden@.subrange(r * h, r * h + h),
                    b@ =~= headed + halves_bytes(row.take(c as int)),
                decreases h - c,
            {
                proof {
                    assert(row.take(c + 1).drop_last() =~= row.take(c as int));
                }
                push_number(&mut b, hidden[base + c] as u64, 2);
                c += 1;
            }
            proof {
                assert(row.take(h as int) =~= row);
            }
            base = base + h;
            r += 1;
        }
        Some((at, b))
    }

    /// Records the token sampled after position `pos`. The first token of a stream
    /// fixes its prompt rows.
    pub fn token(&mut self, slot: usize, pos: usize, token: i64) -> (w: Option<TokenWrite>)
        requires
            old(self).wf(),
            pos < usize::MAX,
            record_at(pos as int, old(self).record_bytes as int) <= u64::MAX,
        ensures
            final(self).wf(),
            ({
                let at = stream_of(old(self).streams@, slot);
                let fine = !old(self).failed && old(self).affords(TOKEN_COST as int);
                &&& w is Some <==> fine && at is Some
                &&& old(self).failed ==> *final(self) == *old(self)
                &&& !old(self).failed && !fine ==> old(self).stopped(
                    *final(self),
                    old(self).written as int,
                )
                &&& fine && at is None ==> old(self).stopped(
                    *final(self),
                    old(self).written + TOKEN_COST,
                )
                &&& w matches Some(t) ==> {
                    let i = at->0;
                    let first = old(self).streams[i].prompt_rows == 0;
                    &&& t.at == record_at(pos as int, old(self).record_bytes as int)
                    &&& t.token@ =~= bytes::bytes_of((token as u64) as nat, 8)
                    &&& t.prompt is Some <==> first
                    &&& t.prompt matches Some(p) ==> p@ =~= bytes::bytes_of(pos as nat + 1, 4)
                    &&& *final(self) == (StateCapture {
                        written: (old(self).written + TOKEN_COST) as u64,
                        streams: final(self).streams,
                        ..*old(self)
                    })
                    &&& final(self).streams.len() == old(self).streams.len()
                    &&& forall|j: int|
                        0 <= j < final(self).streams.len() ==> (#[trigger] final(self).streams[j])
                            == if j == i && first {
                            StreamFile { prompt_rows: (pos + 1) as usize, ..old(self).streams[j] }
                        } else {
                            old(self).streams[j]
                        }
                }
            }),
    {
        if self.failed {
            return None;
        }
        if !self.reserve(TOKEN_COST) {
            self.stop();
            return None;
        }
        match self.find(slot) {
            None => {
                self.stop();
                None
            },
            Some(i) => {
                let prompt: Option<Vec<u8>> = if self.streams[i].prompt_rows == 0 {
                    let sequence: u64 = self.streams[i].sequence;
                    self.streams.set(i, StreamFile { slot, sequence, prompt_rows: pos + 1 });
                    let mut p: Vec<u8> = Vec::new();
                    push_number(&mut p, pos as u64 + 1, 4);
                    Some(p)
                } else {
                    None
                };
                assert(pos * self.record_bytes >= 0) by (nonlinear_arith);
                let at: u64 = HEADER + pos as u64 * self.record_bytes;
                let mut t: Vec<u8> = Vec::new();
                push_number(&mut t, token as u64, 8);
                Some(TokenWrite { prompt, at, token: t })
            },
        }
    }

    /// The length that a slot's file is cut to after a rewind to `len` positions;
    /// nothing where no file is open.
    pub fn truncate(&self, slot: usize, len: usize) -> (n: Option<u64>)
        requires
            self.wf(),
            record_at(len as int, self.record_bytes as int) <= u64::MAX,
        ensures
            n is Some <==> !self.failed && stream_of(self.streams@, slot) is Some,
            n matches Some(x) ==> x == record_at(len as int, self.record_bytes as int),
    {
        if self.failed {
            return None;
        }
        match self.find(slot) {
            None => None,
            Some(_) => {
                assert(len * self.record_bytes >= 0) by (nonlinear_arith);
                Some(HEADER + len as u64 * self.record_bytes)
            },
        }
    }

    /// Takes a slot's stream off to finish its file; nothing where none is open.
    pub fn close_begin(&mut self, slot: usize) -> (s: Option<StreamFile>)
        requires
            old(self).wf(),
        ensures
            final(self).wf(),
            s is Some <==> !old(self).failed && stream_of(old(self).streams@, slot) is Some,
            s is None ==> *final(self) == *old(self),
            s matches Some(f) ==> {
                &&& f == old(self).streams[stream_of(old(self).streams@, slot)->0]
                &&& *final(self) == (StateCapture { streams: final(self).streams, ..*old(self) })
                &&& final(self).streams@ =~= old(self).streams@.remove(
                    stream_of(old(self).streams@, slot)->0,
                )
            },
    {
        if self.failed {
            return None;
        }
        match self.find(slot) {
            None => None,
            Some(i) => {
                let ghost before = self.streams@;
                let f: StreamFile = self.streams.remove(i);
                proof {
                    let after = self.streams@;
                    assert forall|a: int, b: int| 0 <= a < b < after.len() implies (
                    #[trigger] after[a]).slot != (#[trigger] after[b]).slot by {
                        let a1 = if a < i {
                            a
                        } else {
                            a + 1
                        };
                        let b1 = if b < i {
                            b
                        } else {
                            b + 1
                        };
                        assert(before[a1].slot != before[b1].slot);
                    }
                }
                Some(f)
            },
        }
    }

    /// The index entry of a stream's finished file of `size` bytes, as JSON.
    pub open spec fn entry(self, s: StreamFile, boot: Seq<char>, size: u64) -> Option<Seq<u8>> {
        json_object(
            ("file"@, bin_text(self.rank as nat, s.slot as nat, boot, s.sequence as nat)),
            ("size"@, size),
            ("rank"@, self.rank as u64),
            ("slot"@, s.slot as u64),
            ("prompt_rows"@, s.prompt_rows as u64),
            ("hidden"@, self.hidden as u64),
        )
    }

    /// What a close leads to, given the index entry: the line to append where the budget
    /// affords it. The capture stops where it does not, or where there is no entry.
    pub open spec fn charged(
        self,
        post: StateCapture,
        entry: Option<Seq<u8>>,
        line: Option<Seq<u8>>,
    ) -> bool {
        match entry {
            Some(e) if self.affords(e.len() as int + 1) => {
                &&& line == Some(e.push(10u8))
                &&& post == (StateCapture { written: (self.written + e.len() + 1) as u64, ..self })
            },
            _ => line is None && self.stopped(post, self.written as int),
        }
    }

    /// Charges the index entry of a finished file; where the budget is exhausted the
    /// capture stops and the file stays unfinished.
    pub fn close_charge(&mut self, entry: Option<Vec<u8>>) -> (line: Option<Vec<u8>>)
        requires
            old(self).wf(),
        ensures
            final(self).wf(),
            old(self).charged(
                *final(self),
                match entry {
                    Some(e) => Some(e@),
                    None => None,
                },
                match line {
                    Some(l) => Some(l@),
                    None => None,
                },
            ),
    {
        match entry {
            Some(e) => {
                let n: u64 = e.len() as u64;
                if n < u64::MAX && self.reserve(n + 1) {
                    let mut l: Vec<u8> = e;
                    l.push(10);
                    return Some(l);
                }
            },
            None => {},
        }
        self.stop();
        None
    }

    /// Finishes a stream that was taken off: names its finished file of `size` bytes and
    /// gives the line that the index gets.
    pub fn close(&mut self, s: &StreamFile, boot: &str, size: u64) -> (r: (String, Option<Vec<u8>>))
        requires
            old(self).wf(),
        ensures
            final(self).wf(),
            r.0@ == bin_text(old(self).rank as nat, s.slot as nat, boot@, s.sequence as nat),
            old(self).charged(
                *final(self),
                old(self).entry(*s, boot@, size),
                match r.1 {
                    Some(l) => Some(l@),
                    None => None,
                },
            ),
    {
        let name: String = bin_name(self.rank, s.slot, boot, s.sequence);
        let entry: Option<Vec<u8>> = write_object(
            ("file", name.as_str()),
            ("size", size),
            ("rank", self.rank as u64),
            ("slot", s.slot as u64),
            ("prompt_rows", s.prompt_rows as u64),
            ("hidden", self.hidden as u64),
        );
        let line: Option<Vec<u8>> = self.close_charge(entry);
        (name, line)
    }
}

/// The JSON text of an object with one text field and five unsigned ones.
pub uninterp spec fn json_object(
    file: (Seq<char>, Seq<char>),
    a: (Seq<char>, u64),
    b: (Seq<char>, u64),
    c: (Seq<char>, u64),
    d: (Seq<char>, u64),
    e: (Seq<char>, u64),
) -> Option<Seq<u8>>;

/// Writes a JSON object with one text field and five unsigned ones: a `serde_json::Map`
/// with the fields inserted in this order, through `serde_json::to_vec`. Nothing where that
/// reports an error.
#[verifier::external_body]
fn write_object(
    file: (&str, &str),
    a: (&str, u64),
    b: (&str, u64),
    c: (&str, u64),
    d: (&str, u64),
    e: (&str, u64),
) -> (r: Option<Vec<u8>>)
    ensures
        (match r {
            Some(v) => Some(v@),
            None => None,
        }) == json_object(
            (file.0@, file.1@),
            (a.0@, a.1),
            (b.0@, b.1),
            (c.0@, c.1),
            (d.0@, d.1),
            (e.0@, e.1),
        ),
{
    let mut m = serde_json::Map::new();
    m.insert(file.0.to_string(), file.1.into());
    m.insert(a.0.to_string(), a.1.into());
    m.insert(b.0.to_string(), b.1.into());
    m.insert(c.0.to_string(), c.1.into());
    m.insert(d.0.to_string(), d.1.into());
    m.insert(e.0.to_string(), e.1.into());
    serde_json::to_vec(&m).ok()
}

proof fn lemma_stream_of(s: Seq<StreamFile>)
    ensures
        forall|slot: usize|
            (#[trigger] stream_of(s, slot)) matches Some(i) ==> 0 <= i < s.len() && s[i].slot == slot,
        forall|slot: usize, i: int|
            0 <= i < s.len() && (#[trigger] s[i]).slot == slot ==> (#[trigger] stream_of(s, slot)) is Some,
    decreases s.len(),
{
    if s.len() > 0 {
        let d = s.drop_last();
        lemma_stream_of(d);
        assert forall|slot: usize| (#[trigger] stream_of(s, slot)) is Some implies 0 <= stream_of(
            s,
            slot,
        )->0 < s.len() && s[stream_of(s, slot)->0].slot == slot by {
            if s.last().slot != slot {
                let i = stream_of(d, slot)->0;
                assert(d[i] == s[i]);
            }
        }
        assert forall|slot: usize, i: int|
            0 <= i < s.len() && (#[trigger] s[i]).slot == slot implies (#[trigger] stream_of(
            s,
            slot,
        )) is Some by {
            if i < s.len() - 1 {
                assert(s.drop_last()[i].slot == slot);
                assert(stream_of(s.drop_last(), slot) is Some);
            }
        }
    }
}

/// The name of a stream's file without its ending.
pub open spec fn stream_text(rank: nat, slot: nat, boot: Seq<char>, sequence: nat) -> Seq<char> {
    "r"@ + text::decimal_text(rank) + "-s"@ + text::decimal_text(slot) + "-"@ + boot + "-"@
        + text::decimal_text(sequence)
}

/// The name of a stream's unfinished file.
pub open spec fn part_text(rank: nat, slot: nat, boot: Seq<char>, sequence: nat) -> Seq<char> {
    stream_text(rank, slot, boot, sequence) + ".part"@
}

/// The name of a stream's finished file.
pub open spec fn bin_text(rank: nat, slot: nat, boot: Seq<char>, sequence: nat) -> Seq<char> {
    stream_text(rank, slot, boot, sequence) + ".bin"@
}

fn stream_name(rank: u32, slot: usize, boot: &str, sequence: u64, ending: &str) -> (s: String)
    ensures
        s@ == stream_text(rank as nat, slot as nat, boot@, sequence as nat) + ending@,
{
    let mut v: Vec<char> = chars_of("r");
    let mut d: Vec<char> = write_decimal(rank as u64);
    v.append(&mut d);
    let mut d: Vec<char> = chars_of("-s");
    v.append(&mut d);
    let mut d: Vec<char> = write_decimal(slot as u64);
    v.append(&mut d);
    let mut d: Vec<char> = chars_of("-");
    v.append(&mut d);
    let mut d: Vec<char> = chars_of(boot);
    v.append(&mut d);
    let mut d: Vec<char> = chars_of("-");
    v.append(&mut d);
    let mut d: Vec<char> = write_decimal(sequence);
    v.append(&mut d);
    let mut d: Vec<char> = chars_of(ending);
    v.append(&mut d);
    proof {
        assert(v@ =~= stream_text(rank as nat, slot as nat, boot@, sequence as nat) + ending@);
    }
    text_of(v.as_slice())
}

/// Names a stream's unfinished file.
pub fn part_name(rank: u32, slot: usize, boot: &str, sequence: u64) -> (s: String)
    ensures
        s@ == part_text(rank as nat, slot as nat, boot@, sequence as nat),
{
    stream_name(rank, slot, boot, sequence, ".part")
}

/// Names a stream's finished file.
pub fn bin_name(rank: u32, slot: usize, boot: &str, sequence: u64) -> (s: String)
    ensures
        s@ == bin_text(rank as nat, slot as nat, boot@, sequence as nat),
{
    stream_name(rank, slot, boot, sequence, ".bin")
}

// ------------------------------------------------------------------------ laws

proof fn lemma_halves_len(h: Seq<u16>)
    ensures
        halves_bytes(h).len() == 2 * h.len(),
    decreases h.len(),
{
    if h.len() > 0 {
        lemma_halves_len(h.drop_last());
        bytes::lemma_bytes_len(h.last() as nat, 2);
    }
}

proof fn lemma_record_len(row: Seq<u16>)
    ensures
        fresh_record(row).len() == 8 + 2 * row.len(),
{
    lemma_halves_len(row);
    bytes::lemma_bytes_len(UNSAMPLED as nat, 8);
}

proof fn lemma_records_len(h: Seq<u16>, hidden: int, n: nat)
    requires
        hidden > 0,
        n * hidden <= h.len(),
    ensures
        fresh_records(h, hidden, n).len() == n * (8 + 2 * hidden),
    decreases n,
{
    if n > 0 {
        let m = (n - 1) as nat;
        assert(n * hidden == m * hidden + hidden && m * hidden >= 0 && n * (8 + 2 * hidden) == m * (8
            + 2 * hidden) + 8 + 2 * hidden) by (nonlinear_arith)
            requires
                n == m + 1,
                hidden > 0,
        ;
        lemma_records_len(h, hidden, m);
        lemma_record_len(h.subrange((n - 1) * hidden, n * hidden));
    } else {
        assert(n * (8 + 2 * hidden) == 0) by (nonlinear_arith)
            requires
                n == 0,
        ;
    }
}

/// Row `r` of captured rows stands in the file as the record of its position.
pub proof fn law_rows_read_back(
    file: Seq<u8>,
    h: Seq<u16>,
    hidden: int,
    n: nat,
    pos: int,
    r: int,
)
    requires
        hidden > 0,
        n * hidden <= h.len(),
        0 <= r < n,
        pos >= 0,
    ensures
        ({
            let rb = 8 + 2 * hidden;
            let after = written_at(file, record_at(pos, rb), fresh_records(h, hidden, n));
            let at = record_at(pos + r, rb);
            &&& at + rb <= after.len()
            &&& after.subrange(at, at + rb) =~= fresh_record(
                h.subrange(r * hidden, (r + 1) * hidden),
            )
            &&& bytes::number_at(after, at, 8) == UNSAMPLED
        }),
{
    let rb = 8 + 2 * hidden;
    let recs = fresh_records(h, hidden, n);
    let after = written_at(file, record_at(pos, rb), recs);
    let at = record_at(pos + r, rb);
    let row = h.subrange(r * hidden, (r + 1) * hidden);
    lemma_records_len(h, hidden, n);
    lemma_record_inside(h, hidden, n, r);
    assert(record_at(pos + r, rb) == record_at(pos, rb) + r * rb && r * rb + rb <= n * rb && r * rb
        >= 0 && pos * rb >= 0) by (nonlinear_arith)
        requires
            0 <= r < n,
            rb > 0,
            pos >= 0,
            record_at(pos + r, rb) == HEADER + (pos + r) * rb,
            record_at(pos, rb) == HEADER + pos * rb,
    ;
    assert(after.subrange(at, at + rb) =~= recs.subrange(r * rb, r * rb + rb));
    let rec = fresh_record(row);
    assert((r + 1) * hidden == r * hidden + hidden && r * hidden >= 0 && (r + 1) * hidden <= n
        * hidden) by (nonlinear_arith)
        requires
            0 <= r < n,
            hidden > 0,
    ;
    lemma_record_len(row);
    assert(bytes::pow256(8) == 0x1_0000_0000_0000_0000) by {
        reveal_with_fuel(bytes::pow256, 9);
    }
    bytes::law_number_reads_back(UNSAMPLED as nat, 8);
    let t = bytes::bytes_of(UNSAMPLED as nat, 8);
    assert(after.subrange(at, at + 8) =~= t.subrange(0, 8)) by {
        let w = after.subrange(at, at + rb);
        assert(w == rec);
        assert(after.subrange(at, at + 8) =~= w.subrange(0, 8));
        assert(rec.subrange(0, 8) =~= t.subrange(0, 8));
    }
    bytes::lemma_shifted(after, t, at, 0, 8);
}

proof fn lemma_record_inside(h: Seq<u16>, hidden: int, n: nat, r: int)
    requires
        hidden > 0,
        n * hidden <= h.len(),
        0 <= r < n,
    ensures
        ({
            let rb = 8 + 2 * hidden;
            &&& 0 <= r * rb
            &&& r * rb + rb <= fresh_records(h, hidden, n).len()
            &&& fresh_records(h, hidden, n).subrange(r * rb, r * rb + rb) =~= fresh_record(
                h.subrange(r * hidden, (r + 1) * hidden),
            )
        }),
    decreases n,
{
    let rb = 8 + 2 * hidden;
    let m = (n - 1) as nat;
    assert(n * hidden == m * hidden + hidden && m * hidden >= 0 && r * rb >= 0 && n * rb == m * rb
        + rb && r * rb + rb <= n * rb) by (nonlinear_arith)
        requires
            n == m + 1,
            hidden > 0,
            rb > 0,
            0 <= r < n,
    ;
    lemma_records_len(h, hidden, n);
    lemma_records_len(h, hidden, m);
    let head = fresh_records(h, hidden, m);
    let all = fresh_records(h, hidden, n);
    let last = fresh_record(h.subrange((n - 1) * hidden, n * hidden));
    lemma_record_len(h.subrange((n - 1) * hidden, n * hidden));
    if r < m {
        lemma_record_inside(h, hidden, m, r);
        assert(all.subrange(r * rb, r * rb + rb) =~= head.subrange(r * rb, r * rb + rb));
    } else {
        assert(r * rb == m * rb) by (nonlinear_arith)
            requires
                r == m,
        ;
        assert(all.subrange(r * rb, r * rb + rb) =~= last);
    }
}

/// A recorded token reads back from its position, and the position's hidden state
/// and every other record stay as they were.
pub proof fn law_token_reads_back(file: Seq<u8>, hidden: int, pos: int, token: u64, other: int)
    requires
        hidden > 0,
        pos >= 0,
        other >= 0,
        record_at(pos + 1, 8 + 2 * hidden) <= file.len(),
        record_at(other + 1, 8 + 2 * hidden) <= file.len(),
    ensures
        ({
            let rb = 8 + 2 * hidden;
            let at = record_at(pos, rb);
            let o = record_at(other, rb);
            let after = written_at(file, at, bytes::bytes_of(token as nat, 8));
            &&& after.len() == file.len()
            &&& bytes::number_at(after, at, 8) == token
            &&& after.subrange(at + 8, at + rb) =~= file.subrange(at + 8, at + rb)
            &&& other != pos ==> after.subrange(o, o + rb) =~= file.subrange(o, o + rb)
        }),
{
    let rb = 8 + 2 * hidden;
    let at = record_at(pos, rb);
    let o = record_at(other, rb);
    let t = bytes::bytes_of(token as nat, 8);
    let after = written_at(file, at, t);
    assert(bytes::pow256(8) == 0x1_0000_0000_0000_0000) by {
        reveal_with_fuel(bytes::pow256, 9);
    }
    bytes::law_number_reads_back(token as nat, 8);
    assert(record_at(pos + 1, rb) == at + rb && record_at(other + 1, rb) == o + rb && at >= 32 && o
        >= 32 && (other < pos ==> o + rb <= at) && (other > pos ==> at + rb <= o))
        by (nonlinear_arith)
        requires
            record_at(pos + 1, rb) == 32 + (pos + 1) * rb,
            record_at(other + 1, rb) == 32 + (other + 1) * rb,
            at == 32 + pos * rb,
            o == 32 + other * rb,
            rb > 0,
            pos >= 0,
            other >= 0,
    ;
    assert(after.subrange(at, at + 8) =~= t.subrange(0, 8));
    bytes::lemma_shifted(after, t, at, 0, 8);
}

/// Cutting a file off after a rewind keeps the records before it and drops the
/// others.
pub proof fn law_rewind_keeps_earlier_records(file: Seq<u8>, hidden: int, len: int, pos: int)
    requires
        hidden > 0,
        0 <= pos < len,
        record_at(len, 8 + 2 * hidden) <= file.len(),
    ensures
        ({
            let rb = 8 + 2 * hidden;
            let cut = file.take(record_at(len, rb));
            let at = record_at(pos, rb);
            &&& cut.len() == record_at(len, rb)
            &&& at + rb <= cut.len()
            &&& cut.subrange(at, at + rb) =~= file.subrange(at, at + rb)
        }),
{
    let rb = 8 + 2 * hidden;
    let at = record_at(pos, rb);
    assert(0 <= at && at + rb <= record_at(len, rb)) by (nonlinear_arith)
        requires
            at == 32 + pos * rb,
            record_at(len, rb) == 32 + len * rb,
            0 <= pos < len,
            rb > 0,
    ;
}

/// A row is stored value by value, the lower byte of each first.
pub proof fn law_halves_lie_side_by_side(h: Seq<u16>, i: int)
    requires
        0 <= i < h.len(),
    ensures
        halves_bytes(h).len() == 2 * h.len(),
        halves_bytes(h)[2 * i] == h[i] % 256,
        halves_bytes(h)[2 * i + 1] == h[i] / 256,
    decreases h.len(),
{
    let d = h.drop_last();
    bytes::law_bytes_of_short_numbers(h.last() as nat);
    if d.len() > 0 {
        let x: int = if i < d.len() {
            i
        } else {
            0
        };
        law_halves_lie_side_by_side(d, x);
        assert(d[x] == h[x]);
    } else {
        assert(halves_bytes(d) =~= Seq::<u8>::empty());
    }
    assert(h.last() == h[h.len() - 1]);
}

/// A file begins with its mark, then the width, the rank and the slot in four bytes each,
/// four bytes for the prompt that are still zero, and eight for the sequence.
pub proof fn law_header_layout(hidden: nat, rank: nat, slot: nat, sequence: nat)
    requires
        hidden < 0x1_0000_0000,
        rank < 0x1_0000_0000,
        slot < 0x1_0000_0000,
        sequence < 0x1_0000_0000_0000_0000,
    ensures
        ({
            let b = header_bytes(hidden, rank, slot, sequence);
            &&& b.len() == 32
            &&& b.take(8) =~= seq![0x49u8, 0x4e, 0x4b, 0x43, 0x41, 0x50, 0x30, 0x31]
            &&& bytes::number_at(b, 8, 4) == hidden
            &&& bytes::number_at(b, 12, 4) == rank
            &&& bytes::number_at(b, 16, 4) == slot
            &&& bytes::number_at(b, 20, 4) == 0
            &&& bytes::number_at(b, 24, 8) == sequence
        }),
{
    let b = header_bytes(hidden, rank, slot, sequence);
    assert(bytes::pow256(4) == 0x1_0000_0000 && bytes::pow256(8) == 0x1_0000_0000_0000_0000) by {
        reveal_with_fuel(bytes::pow256, 9);
    }
    bytes::law_number_reads_back(hidden, 4);
    bytes::law_number_reads_back(rank, 4);
    bytes::law_number_reads_back(slot, 4);
    bytes::law_number_reads_back(0, 4);
    bytes::law_number_reads_back(sequence, 8);
    assert(b.take(8) =~= magic());
    assert(b.subrange(8, 12) =~= bytes::bytes_of(hidden, 4).subrange(0, 4));
    bytes::lemma_shifted(b, bytes::bytes_of(hidden, 4), 8, 0, 4);
    assert(b.subrange(12, 16) =~= bytes::bytes_of(rank, 4).subrange(0, 4));
    bytes::lemma_shifted(b, bytes::bytes_of(rank, 4), 12, 0, 4);
    assert(b.subrange(16, 20) =~= bytes::bytes_of(slot, 4).subrange(0, 4));
    bytes::lemma_shifted(b, bytes::bytes_of(slot, 4), 16, 0, 4);
    assert(b.subrange(20, 24) =~= bytes::bytes_of(0, 4).subrange(0, 4));
    bytes::lemma_shifted(b, bytes::bytes_of(0, 4), 20, 0, 4);
    assert(b.subrange(24, 32) =~= bytes::bytes_of(sequence, 8).subrange(0, 8));
    bytes::lemma_shifted(b, bytes::bytes_of(sequence, 8), 24, 0, 8);
}

/// Records lie side by side behind the 32 bytes of the header, each with eight bytes for
/// its token and two for each value. A new one has no token yet.
pub proof fn law_record_layout(row: Seq<u16>, pos: int, record_bytes: int, i: int)
    requires
        0 <= i < row.len(),
    ensures
        record_at(0, record_bytes) == 32,
        record_at(pos + 1, record_bytes) - record_at(pos, record_bytes) == record_bytes,
        fresh_record(row).len() == 8 + 2 * row.len(),
        bytes::number_at(fresh_record(row), 0, 8) == 0xffff_ffff_ffff_ffff,
        fresh_record(row)[8 + 2 * i] == row[i] % 256,
        fresh_record(row)[9 + 2 * i] == row[i] / 256,
{
    assert((pos + 1) * record_bytes == pos * record_bytes + record_bytes) by (nonlinear_arith);
    assert(0 * record_bytes == 0);
    law_halves_lie_side_by_side(row, i);
    let t = bytes::bytes_of(UNSAMPLED as nat, 8);
    assert(bytes::pow256(8) == 0x1_0000_0000_0000_0000) by {
        reveal_with_fuel(bytes::pow256, 9);
    }
    bytes::law_number_reads_back(UNSAMPLED as nat, 8);
    assert(fresh_record(row).subrange(0, 8) =~= t.subrange(0, 8));
    bytes::lemma_shifted(fresh_record(row), t, 0, 0, 8);
}

/// A write changes the bytes it covers and no others; a gap before it is zero.
pub proof fn law_a_write_changes_what_it_covers(file: Seq<u8>, at: int, b: Seq<u8>, i: int)
    requires
        0 <= at,
        0 <= i,
    ensures
        ({
            let after = written_at(file, at, b);
            &&& after.len() >= file.len() && after.len() >= at + b.len()
            &&& after.len() == file.len() || after.len() == at + b.len()
            &&& at <= i < at + b.len() ==> after[i] == b[i - at]
            &&& i < file.len() && !(at <= i < at + b.len()) ==> after[i] == file[i]
            &&& file.len() <= i < at && i < after.len() ==> after[i] == 0
        }),
{
}

/// An open slot has one stream, the one that is found for it.
pub proof fn law_stream_of_a_slot(s: Seq<StreamFile>, slot: usize)
    ensures
        match stream_of(s, slot) {
            Some(i) => 0 <= i < s.len() && s[i].slot == slot,
            None => forall|j: int| 0 <= j < s.len() ==> (#[trigger] s[j]).slot != slot,
        },
    decreases s.len(),
{
    if s.len() > 0 && s.last().slot != slot {
        let d = s.drop_last();
        law_stream_of_a_slot(d, slot);
        if stream_of(d, slot) is None {
            assert forall|j: int| 0 <= j < s.len() implies (#[trigger] s[j]).slot != slot by {
                if j < d.len() {
                    assert(d[j] == s[j]);
                }
            }
        }
    }
}

/// A write is made only within the budget; a line is charged with its line feed, and
/// where it does not fit, capturing stops for good.
pub proof fn law_capture_stays_within_its_budget(
    pre: StateCapture,
    post: StateCapture,
    entry: Option<Seq<u8>>,
    line: Option<Seq<u8>>,
    bytes: int,
)
    requires
        pre.charged(post, entry, line),
        pre.written <= pre.budget,
    ensures
        pre.affords(bytes) <==> bytes <= pre.budget - pre.written,
        post.written <= post.budget,
        line is Some ==> entry is Some && line->0 =~= entry->0.push(10u8) && post.written
            == pre.written + line->0.len(),
        line is None ==> post.failed && post.streams.len() == 0 && post.written == pre.written,
        entry is Some && entry->0.len() < pre.budget - pre.written ==> line is Some,
{
}

/// Files are named by rank, slot, start and sequence; an open one ends in `.part`, a
/// finished one in `.bin`.
pub proof fn law_names_of_streams(rank: nat, slot: nat, boot: Seq<char>, sequence: nat)
    ensures
        part_text(rank, slot, boot, sequence) =~= "r"@ + text::decimal_text(rank) + "-s"@
            + text::decimal_text(slot) + "-"@ + boot + "-"@ + text::decimal_text(sequence)
            + ".part"@,
        bin_text(rank, slot, boot, sequence) =~= "r"@ + text::decimal_text(rank) + "-s"@
            + text::decimal_text(slot) + "-"@ + boot + "-"@ + text::decimal_text(sequence)
            + ".bin"@,
{
}

/// A token is charged with twelve bytes: eight of its own and four of the prompt, which
/// lie 20 bytes into the file.
pub proof fn law_cost_of_a_token()
    ensures
        TOKEN_COST == 8 + 4,
        PROMPT_AT == 20,
        HEADER == 32,
{
}

/// A capture that stops closes every stream and keeps what it is and what it has written.
pub proof fn law_a_stop_closes_every_stream(pre: StateCapture, post: StateCapture, written: int)
    requires
        pre.stopped(post, written),
    ensures
        post.failed,
        forall|slot: usize| #[trigger] stream_of(post.streams@, slot) is None,
        post.rank == pre.rank && post.hidden == pre.hidden && post.record_bytes
            == pre.record_bytes,
        post.budget == pre.budget && post.written == written && post.sequence == pre.sequence,
{
    assert forall|slot: usize| #[trigger] stream_of(post.streams@, slot) is None by {
        law_stream_of_a_slot(post.streams@, slot);
    }
}

/// Another slot has the same stream before and after where it has the same file, or none.
pub proof fn law_streams_that_stay(a: Seq<StreamFile>, b: Seq<StreamFile>, slot: usize)
    ensures
        same_stream(a, b, slot) <==> match stream_of(a, slot) {
            Some(i) => stream_of(b, slot) matches Some(j) && b[j] == a[i],
            None => stream_of(b, slot) is None,
        },
{
}

} // verus!
