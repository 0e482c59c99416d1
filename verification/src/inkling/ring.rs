//! Position rings: the sequence state that a causal layer keeps per position.
//!
//! A ring of `rows` rows holds the value of position `q` in row `q % rows`. The
//! high-water mark is one past the furthest position written since the last
//! reset or restore, and position `q` is still held exactly while it lies within
//! `rows` of that mark and below the current length. A layer that looks back
//! `need` positions therefore finds them all as long as at most `rewind`
//! positions were written past the current length; rolling back enforces that
//! bound against the mark, so it holds across any series of rollbacks.
use vstd::prelude::*;

verus! {

/// Extra rows that a rejected draft may roll back over.
pub const DEFAULT_REWIND: usize = 32;

/// A ring of rows of `width` values, each the bits of one number.
pub struct Ring {
    width: usize,
    need: usize,
    rewind: usize,
    bounded: bool,
    data: Vec<Vec<u32>>,
    len: usize,
    hwm: usize,
}

/// The rows of a ring's held positions `first..len`, oldest first.
pub struct RingState {
    len: usize,
    first: usize,
    rows: Vec<Vec<u32>>,
}

/// The oldest position that a ring of `rows` rows still holds under a mark.
pub open spec fn oldest_under(hwm: nat, rows: nat) -> nat {
    if hwm > rows {
        (hwm - rows) as nat
    } else {
        0
    }
}

impl RingState {
    pub closed spec fn length(self) -> nat {
        self.len as nat
    }

    pub closed spec fn start(self) -> nat {
        self.first as nat
    }

    /// The saved row of every position from the start to the length.
    pub closed spec fn saved(self) -> Map<int, Seq<u32>> {
        Map::new(
            |q: int| self.first <= q < self.len,
            |q: int| self.rows[q - self.first]@,
        )
    }

    pub closed spec fn wf(self, width: nat) -> bool {
        &&& self.first <= self.len
        &&& self.rows.len() == self.len - self.first
        &&& forall|i: int| 0 <= i < self.rows.len() ==> (#[trigger] self.rows[i]).len() == width
    }

    /// Enough rows for a reader that looks back `need` positions.
    pub open spec fn supports(self, need: nat) -> bool {
        self.start() == 0 || self.length() - self.start() >= need
    }

    /// Sequence length this state was taken at.
    pub fn len(&self) -> (n: usize)
        ensures
            n == self.length(),
    {
        self.len
    }

    pub fn is_empty(&self) -> (b: bool)
        ensures
            b == (self.length() == 0),
    {
        self.len == 0
    }

    /// Payload size in bytes, at four bytes a value.
    pub open spec fn size(self, width: int) -> int {
        (self.length() - self.start()) * width * 4
    }

    pub proof fn lemma_size_nonneg(self, width: int)
        requires
            self.wf(width as nat),
            0 <= width,
        ensures
            0 <= self.size(width),
    {
        let n = self.length() - self.start();
        assert(0 <= n * width * 4) by (nonlinear_arith)
            requires
                0 <= n,
                0 <= width,
        ;
    }

    /// Payload size in bytes, at four bytes a value.
    pub fn bytes(&self, width: usize) -> (n: usize)
        requires
            self.wf(width as nat),
            self.size(width as int) <= usize::MAX,
        ensures
            n == self.size(width as int),
    {
        proof {
            let n = self.rows.len() as int;
            assert(0 <= n * width <= n * width * 4) by (nonlinear_arith)
                requires
                    0 <= n,
                    0 <= width,
            ;
        }
        self.rows.len() * width * 4
    }
}

impl Ring {
    /// Positions consumed so far.
    pub closed spec fn length(self) -> nat {
        self.len as nat
    }

    /// One past the furthest position written since the last reset or restore.
    pub closed spec fn mark(self) -> nat {
        self.hwm as nat
    }

    pub closed spec fn rows(self) -> nat {
        self.data.len() as nat
    }

    pub closed spec fn row_width(self) -> nat {
        self.width as nat
    }

    pub closed spec fn lookback(self) -> nat {
        self.need as nat
    }

    pub closed spec fn slack(self) -> nat {
        self.rewind as nat
    }

    /// Whether positions stop at the row count instead of wrapping.
    pub closed spec fn is_bounded(self) -> bool {
        self.bounded
    }

    /// The oldest position whose row is still in the ring.
    pub open spec fn oldest(self) -> nat {
        oldest_under(self.mark(), self.rows())
    }

    /// The row of every position that the ring still holds.
    pub closed spec fn held(self) -> Map<int, Seq<u32>> {
        Map::new(
            |q: int| self.oldest() <= q < self.len,
            |q: int| self.data[q % self.data.len() as int]@,
        )
    }

    pub closed spec fn wf(self) -> bool {
        &&& self.data.len() >= 1
        &&& self.need + self.rewind <= self.data.len()
        &&& forall|s: int|
            0 <= s < self.data.len() ==> (#[trigger] self.data[s]).len() == self.width
        &&& self.len <= self.hwm
        &&& self.hwm + self.need <= self.len + self.data.len() || self.hwm <= self.data.len()
        &&& self.bounded ==> self.hwm <= self.data.len()
    }

    /// Same shape and bounds, whatever the contents.
    pub open spec fn same_shape(self, other: Ring) -> bool {
        &&& self.rows() == other.rows()
        &&& self.row_width() == other.row_width()
        &&& self.lookback() == other.lookback()
        &&& self.slack() == other.slack()
        &&& self.is_bounded() == other.is_bounded()
    }

    /// The sequence can roll back to `len`: no more than the slack was written past it. A
    /// ring that does not wrap overwrites nothing and rolls back anywhere.
    pub open spec fn can_truncate(self, len: nat) -> bool {
        len <= self.length() && (self.is_bounded() || self.mark() - len <= self.slack())
    }

    fn filled(width: usize, rows: usize, need: usize, rewind: usize, bounded: bool) -> (ring: Ring)
        requires
            rows >= 1,
            need + rewind <= rows,
        ensures
            ring.wf(),
            ring.length() == 0,
            ring.mark() == 0,
            ring.rows() == rows,
            ring.row_width() == width,
            ring.lookback() == need,
            ring.slack() == rewind,
            ring.is_bounded() == bounded,
            ring.held() =~= Map::empty(),
    {
        let mut data: Vec<Vec<u32>> = Vec::new();
        let mut s: usize = 0;
        while s < rows
            invariant
                s <= rows,
                data.len() == s,
                forall|i: int| 0 <= i < s ==> (#[trigger] data[i]).len() == width,
            decreases rows - s,
        {
            data.push(vec![0u32; width]);
            s += 1;
        }
        Ring { width, need, rewind, bounded, data, len: 0, hwm: 0 }
    }

    /// A wrapping ring whose reader looks back `need` positions and whose writer
    /// may roll back `rewind`. It has at least one row.
    pub fn wrapping(width: usize, need: usize, rewind: usize) -> (ring: Ring)
        requires
            need + rewind <= usize::MAX,
        ensures
            ring.wf(),
            ring.length() == 0,
            ring.mark() == 0,
            ring.rows() == if need + rewind >= 1 {
                need + rewind
            } else {
                1
            },
            ring.row_width() == width,
            ring.lookback() == need,
            ring.slack() == rewind,
            !ring.is_bounded(),
            ring.held() =~= Map::empty(),
    {
        let rows: usize = if need + rewind >= 1 {
            need + rewind
        } else {
            1
        };
        Ring::filled(width, rows, need, rewind, false)
    }

    /// A ring that never wraps: position `q` is row `q`, up to `rows` positions.
    pub fn linear(width: usize, rows: usize) -> (ring: Ring)
        requires
            rows >= 1,
        ensures
            ring.wf(),
            ring.length() == 0,
            ring.mark() == 0,
            ring.rows() == rows,
            ring.row_width() == width,
            ring.lookback() == rows,
            ring.slack() == 0,
            ring.is_bounded(),
            ring.held() =~= Map::empty(),
    {
        Ring::filled(width, rows, rows, 0, true)
    }

    /// An empty ring of the same shape.
    pub fn empty_like(&self) -> (ring: Ring)
        requires
            self.wf(),
        ensures
            ring.wf(),
            ring.same_shape(*self),
            ring.length() == 0,
            ring.mark() == 0,
            ring.held() =~= Map::empty(),
    {
        Ring::filled(self.width, self.data.len(), self.need, self.rewind, self.bounded)
    }

    pub fn len(&self) -> (n: usize)
        ensures
            n == self.length(),
    {
        self.len
    }

    pub fn is_empty(&self) -> (b: bool)
        ensures
            b == (self.length() == 0),
    {
        self.len == 0
    }

    pub fn rewind(&self) -> (n: usize)
        ensures
            n == self.slack(),
    {
        self.rewind
    }

    pub fn high_water_mark(&self) -> (n: usize)
        ensures
            n == self.mark(),
    {
        self.hwm
    }

    pub fn row_count(&self) -> (n: usize)
        ensures
            n == self.rows(),
    {
        self.data.len()
    }

    pub fn width(&self) -> (n: usize)
        ensures
            n == self.row_width(),
    {
        self.width
    }

    pub fn bounded(&self) -> (b: bool)
        ensures
            b == self.is_bounded(),
    {
        self.bounded
    }

    /// Bytes held by the rows, at four bytes a value.
    pub fn cache_bytes(&self) -> (n: usize)
        requires
            self.rows() * self.row_width() * 4 <= usize::MAX,
        ensures
            n == self.rows() * self.row_width() * 4,
    {
        proof {
            let n = self.data.len() as int;
            assert(0 <= n * self.width <= n * self.width * 4) by (nonlinear_arith)
                requires
                    0 <= n,
                    0 <= self.width,
            ;
        }
        self.data.len() * self.width * 4
    }

    /// Oldest position whose row is still in the ring.
    pub fn oldest_valid(&self) -> (n: usize)
        ensures
            n == self.oldest(),
    {
        if self.hwm > self.data.len() {
            self.hwm - self.data.len()
        } else {
            0
        }
    }

    /// Records the row of the next position. A ring that does not wrap must have
    /// room for it.
    pub fn push(&mut self, row: &[u32])
        requires
            old(self).wf(),
            row.len() == old(self).row_width(),
            old(self).is_bounded() ==> old(self).length() < old(self).rows(),
            old(self).length() < usize::MAX,
        ensures
            final(self).wf(),
            pushed(*old(self), *final(self), row@),
    {
        let rows: usize = self.data.len();
        let p: usize = self.len;
        let slot: usize = p % rows;
        let ghost before = *self;
        let mut copy: Vec<u32> = Vec::new();
        let mut i: usize = 0;
        while i < row.len()
            invariant
                i <= row.len(),
                copy@ == row@.take(i as int),
            decreases row.len() - i,
        {
            proof {
                assert(row@.take(i + 1) =~= row@.take(i as int).push(row@[i as int]));
            }
            copy.push(row[i]);
            i += 1;
        }
        proof {
            assert(row@.take(row.len() as int) =~= row@);
        }
        self.data.set(slot, copy);
        self.len = p + 1;
        if self.hwm < p + 1 {
            self.hwm = p + 1;
        }
        proof {
            let oldest = self.oldest() as int;
            let want = before.held().insert(p as int, row@).restrict(
                Set::new(|q: int| oldest <= q),
            );
            assert forall|q: int| self.held().dom().contains(q) implies want.dom().contains(q)
                && self.held()[q] == want[q] by {
                if q < p {
                    lemma_slots_differ(q, p as int, rows as int);
                }
            }
            assert forall|q: int| want.dom().contains(q) implies self.held().dom().contains(q) by {
                if q == p {
                    assert(oldest <= p);
                }
            }
            assert(self.held() =~= want);
        }
    }

    /// The row of a held position.
    pub fn row(&self, q: usize) -> (row: &Vec<u32>)
        requires
            self.wf(),
            self.oldest() <= q < self.length(),
        ensures
            row@ == self.held()[q as int],
            row.len() == self.row_width(),
    {
        &self.data[q % self.data.len()]
    }

    /// Forgets everything. Nothing is overwritten: no row is held any more.
    pub fn reset(&mut self)
        requires
            old(self).wf(),
        ensures
            final(self).wf(),
            final(self).same_shape(*old(self)),
            final(self).length() == 0,
            final(self).mark() == 0,
            final(self).held() =~= Map::empty(),
    {
        self.len = 0;
        self.hwm = 0;
    }

    /// Rolls back to `len` positions, within the slack.
    pub fn truncate(&mut self, len: usize)
        requires
            old(self).wf(),
            old(self).can_truncate(len as nat),
        ensures
            final(self).wf(),
            final(self).same_shape(*old(self)),
            final(self).length() == len,
            final(self).mark() == old(self).mark(),
            final(self).held() =~= old(self).held().restrict(Set::new(|q: int| q < len)),
    {
        self.len = len;
    }

    /// Whether the sequence can roll back to `len`.
    pub fn truncatable(&self, len: usize) -> (b: bool)
        requires
            self.wf(),
        ensures
            b == self.can_truncate(len as nat),
    {
        len <= self.len && (self.bounded || self.hwm - len <= self.rewind)
    }

    /// Copies out every row that the ring still holds.
    pub fn snapshot(&self) -> (s: RingState)
        requires
            self.wf(),
        ensures
            s.wf(self.row_width()),
            saved_of(s, *self),
            s.supports(self.lookback()),
            self.is_bounded() ==> s.start() == 0 && s.length() <= self.rows(),
    {
        let oldest: usize = self.oldest_valid();
        let first: usize = if oldest < self.len {
            oldest
        } else {
            self.len
        };
        let mut rows: Vec<Vec<u32>> = Vec::new();
        let mut p: usize = first;
        while p < self.len
            invariant
                self.wf(),
                first <= p <= self.len,
                oldest == self.oldest(),
                first == if oldest < self.len {
                    oldest
                } else {
                    self.len
                },
                rows.len() == p - first,
                forall|i: int|
                    0 <= i < rows.len() ==> (#[trigger] rows[i])@ == self.held()[first + i],
                forall|i: int| 0 <= i < rows.len() ==> (#[trigger] rows[i]).len() == self.width,
            decreases self.len - p,
        {
            let row: Vec<u32> = self.row(p).clone();
            proof {
                assert(row@ =~= self.held()[p as int]);
            }
            rows.push(row);
            p += 1;
        }
        let s = RingState { len: self.len, first, rows };
        proof {
            assert forall|q: int| s.saved().dom().contains(q) implies self.held().dom().contains(q)
                && s.saved()[q] == self.held()[q] by {
                assert(rows[q - first]@ == self.held()[first + (q - first)]);
            }
            assert forall|q: int| self.held().dom().contains(q) implies s.saved().dom().contains(
                q,
            ) by {}
        }
        s
    }

    /// Replaces length, mark and rows by those of a snapshot, trimmed to this
    /// ring. The mark becomes the one that the snapshot's rows support.
    pub fn restore(&mut self, s: &RingState)
        requires
            old(self).wf(),
            s.wf(old(self).row_width()),
            s.supports(old(self).lookback()),
            old(self).is_bounded() ==> s.start() == 0 && s.length() <= old(self).rows(),
            s.length() + old(self).rows() <= usize::MAX,
        ensures
            final(self).wf(),
            restored_from(*old(self), *final(self), *s),
    {
        let rows: usize = self.data.len();
        let cut: usize = if s.len > rows {
            s.len - rows
        } else {
            0
        };
        let start: usize = if s.first > cut {
            s.first
        } else {
            cut
        };
        let mut p: usize = start;
        while p < s.len
            invariant
                s.wf(self.width as nat),
                rows == self.data.len(),
                rows >= 1,
                s.first <= start <= p <= s.len,
                s.len - start <= rows,
                self.need + self.rewind <= rows,
                self.same_shape(*old(self)),
                forall|i: int| 0 <= i < rows ==> (#[trigger] self.data[i]).len() == self.width,
                forall|q: int|
                    start <= q < p ==> self.data[#[trigger] (q % rows as int)]@ == s.rows[q
                        - s.first]@,
            decreases s.len - p,
        {
            let row: Vec<u32> = s.rows[p - s.first].clone();
            proof {
                assert(row@ =~= s.rows[p - s.first]@);
                assert forall|q: int| start <= q < p implies #[trigger] (q % rows as int) != p
                    % rows by {
                    lemma_slots_differ(q, p as int, rows as int);
                }
            }
            self.data.set(p % rows, row);
            p += 1;
        }
        self.len = s.len;
        self.hwm = if start == 0 {
            s.len
        } else {
            start + rows
        };
        proof {
            let want = s.saved().restrict(Set::new(|q: int| cut <= q));
            assert(self.oldest() == start || (start == 0 && self.oldest() == 0));
            assert forall|q: int| self.held().dom().contains(q) implies want.dom().contains(q)
                && self.held()[q] == want[q] by {
                assert(self.data[q % rows as int]@ == s.rows[q - s.first]@);
            }
        }
    }
}

/// Two positions less than `rows` apart sit in different rows.
proof fn lemma_slots_differ(q: int, p: int, rows: int)
    requires
        0 <= q < p,
        p - q < rows,
    ensures
        q % rows != p % rows,
{
    if q % rows == p % rows {
        vstd::arithmetic::div_mod::lemma_fundamental_div_mod(q, rows);
        vstd::arithmetic::div_mod::lemma_fundamental_div_mod(p, rows);
        let a = q / rows;
        let b = p / rows;
        assert(p - q == rows * (b - a)) by (nonlinear_arith)
            requires
                q == rows * a + q % rows,
                p == rows * b + p % rows,
                q % rows == p % rows,
        ;
        assert(false) by (nonlinear_arith)
            requires
                0 < p - q < rows,
                p - q == rows * (b - a),
        ;
    }
}

impl Ring {
    /// The mark is never below the length, a row is never missing, and a ring
    /// that does not wrap holds every position.
    pub proof fn law_mark_covers_the_length(self)
        requires
            self.wf(),
        ensures
            self.length() <= self.mark(),
            self.rows() >= 1,
            self.is_bounded() ==> self.mark() <= self.rows() && self.oldest() == 0,
    {
    }

    /// A ring holds exactly the positions from the oldest valid one up to its
    /// length, each with a full row.
    pub proof fn law_held_positions(self)
        requires
            self.wf(),
        ensures
            forall|q: int| #[trigger]
                self.held().dom().contains(q) <==> self.oldest() <= q < self.length(),
            forall|q: int|
                self.oldest() <= q < self.length() ==> (#[trigger] self.held()[q]).len()
                    == self.row_width(),
    {
    }

    /// The positions that the next one looks back to are all held, whatever was
    /// pushed, rolled back and restored before.
    pub proof fn law_lookback_is_held(self, q: int)
        requires
            self.wf(),
            0 <= q < self.length(),
            self.length() - self.lookback() <= q,
        ensures
            self.held().dom().contains(q),
            self.oldest() <= q,
    {
    }
}

/// `s` is the snapshot of a ring: every row that it still holds.
pub open spec fn saved_of(s: RingState, r: Ring) -> bool {
    &&& s.length() == r.length()
    &&& s.start() == if r.oldest() < r.length() {
        r.oldest()
    } else {
        r.length()
    }
    &&& s.saved() =~= r.held()
}

/// The mark of a ring of `rows` rows that was restored from `s`.
pub open spec fn restored_mark(s: RingState, rows: nat) -> nat {
    let cut = oldest_under(s.length(), rows);
    let start = if s.start() > cut {
        s.start()
    } else {
        cut
    };
    if start == 0 {
        s.length()
    } else {
        start + rows
    }
}

/// `after` is `before` with its contents replaced by the saved ones.
pub open spec fn restored_from(before: Ring, after: Ring, s: RingState) -> bool {
    &&& after.same_shape(before)
    &&& after.length() == s.length()
    &&& after.mark() == restored_mark(s, before.rows())
    &&& after.held() =~= s.saved().restrict(
        Set::new(|q: int| oldest_under(s.length(), before.rows()) <= q),
    )
}

/// A ring restored from the snapshot of a ring of the same shape holds the same rows at the
/// same length and allows every rollback that the saved one allowed: exactly those where
/// nothing was written past the length, and where the saved one has wrapped and holds
/// rows.
pub proof fn law_restored_snapshot_behaves_alike(a: Ring, s: RingState, before: Ring, b: Ring, n: nat)
    requires
        a.wf(),
        b.wf(),
        before.same_shape(a),
        saved_of(s, a),
        restored_from(before, b, s),
    ensures
        b.length() == a.length(),
        b.held() == a.held(),
        a.can_truncate(n) ==> b.can_truncate(n),
        a.mark() == a.length() || 0 < a.oldest() < a.length() ==> b.can_truncate(n)
            == a.can_truncate(n),
{
    a.law_mark_covers_the_length();
    assert(oldest_under(a.length(), a.rows()) <= a.oldest());
    assert(b.held() =~= a.held());
}

/// `after` is `before` with `row` recorded for its next position.
pub open spec fn pushed(before: Ring, after: Ring, row: Seq<u32>) -> bool {
    &&& after.same_shape(before)
    &&& after.length() == before.length() + 1
    &&& after.mark() == if before.mark() > before.length() {
        before.mark()
    } else {
        before.length() + 1
    }
    &&& after.held() =~= before.held().insert(before.length() as int, row).restrict(
        Set::new(|q: int| after.oldest() <= q),
    )
}

/// As many of the last positions below the mark are valid as there are rows, and all
/// of them where there are fewer.
pub proof fn law_rows_bound_what_is_valid(mark: nat, rows: nat)
    ensures
        mark <= rows ==> oldest_under(mark, rows) == 0,
        mark > rows ==> mark - oldest_under(mark, rows) == rows,
{
}

/// The row of the new position is read back, the rows before it are what they were,
/// and the length grows by one.
pub proof fn law_pushed_row_is_read_back(before: Ring, after: Ring, row: Seq<u32>, q: int)
    requires
        before.wf(),
        after.wf(),
        pushed(before, after, row),
    ensures
        after.length() == before.length() + 1,
        before.mark() <= before.length() ==> after.mark() == before.length() + 1,
        before.mark() > before.length() ==> after.mark() == before.mark(),
        after.rows() == before.rows() && after.row_width() == before.row_width(),
        after.held().dom().contains(before.length() as int),
        after.held()[before.length() as int] == row,
        after.held().dom().contains(q) && q != before.length() ==> before.held().dom().contains(q)
            && after.held()[q] == before.held()[q],
        before.held().dom().contains(q) && after.mark() - q <= after.rows()
            ==> after.held().dom().contains(q),
{
    after.law_mark_covers_the_length();
    before.law_mark_covers_the_length();
    before.law_held_positions();
    after.law_held_positions();
}

/// A ring that does not wrap rolls back to any earlier length; one that wraps only
/// while no more than its slack has been written past that length.
pub proof fn law_rollback_is_bounded_by_the_slack(r: Ring, len: nat)
    ensures
        r.is_bounded() ==> (r.can_truncate(len) <==> len <= r.length()),
        !r.is_bounded() ==> (r.can_truncate(len) <==> len <= r.length() && r.mark() <= len
            + r.slack()),
{
}

/// A snapshot takes four bytes for each value of each row from its start to its length.
pub proof fn law_snapshot_size(s: RingState, width: int)
    requires
        s.start() <= s.length(),
        0 <= width,
    ensures
        s.size(width) == 4 * (width * (s.length() - s.start())),
        s.start() == s.length() ==> s.size(width) == 0,
{
    let n = s.length() - s.start();
    assert(n * width * 4 == 4 * (width * n)) by (nonlinear_arith);
    assert(n == 0 ==> 4 * (width * n) == 0) by (nonlinear_arith);
}

/// A restored ring gives every saved row that is not further back than its rows, and
/// no other; what it marks as written reaches to its length and no further back than
/// the saved start allows.
pub proof fn law_restored_rows_are_the_saved_ones(before: Ring, after: Ring, s: RingState, q: int)
    requires
        after.wf(),
        restored_from(before, after, s),
        s.start() <= s.length(),
    ensures
        after.length() == s.length(),
        after.held().dom().contains(q) <==> s.saved().dom().contains(q) && s.length() - q
            <= before.rows(),
        after.held().dom().contains(q) ==> after.held()[q] == s.saved()[q],
        s.length() <= after.mark() <= s.length() + before.rows(),
        s.start() > 0 ==> after.oldest() >= s.start(),
{
    assert(s.saved().dom().contains(q) ==> s.start() <= q < s.length());
    after.law_mark_covers_the_length();
}

} // verus!
