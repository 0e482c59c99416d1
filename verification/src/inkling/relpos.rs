//! Relative-position bias table: which entries a backward distance reads.
use vstd::prelude::*;

verus! {

/// A bank of bias-vs-distance profiles, `[d_rel, extent]` row-major, as
/// single-precision bits.
pub struct RelPos {
    pub proj: Vec<u32>,
    pub d_rel: usize,
    pub extent: usize,
}

impl RelPos {
    pub open spec fn wf(self) -> bool {
        self.d_rel > 0 && self.extent > 0 && self.proj.len() == self.d_rel * self.extent
    }

    pub fn new(proj: Vec<u32>, d_rel: usize, extent: usize) -> (t: RelPos)
        requires
            proj.len() == d_rel * extent,
            d_rel > 0,
            extent > 0,
        ensures
            t.wf(),
            t == (RelPos { proj, d_rel, extent }),
    {
        RelPos { proj, d_rel, extent }
    }

    /// The entries that a backward distance mixes, one per profile; nothing at or
    /// beyond the extent, where the bias is zero.
    pub fn column(&self, dist: usize) -> (c: Option<Vec<u32>>)
        requires
            self.wf(),
        ensures
            c is Some <==> dist < self.extent,
            c matches Some(v) ==> v@ =~= Seq::new(
                self.d_rel as nat,
                |i: int| self.proj[i * self.extent + dist],
            ),
    {
        if dist >= self.extent {
            return None;
        }
        let mut v: Vec<u32> = Vec::new();
        let mut i: usize = 0;
        let mut at: usize = dist;
        while i < self.d_rel
            invariant
                self.wf(),
                dist < self.extent,
                i <= self.d_rel,
                i < self.d_rel ==> at == i * self.extent + dist,
                v.len() == i,
                forall|x: int| 0 <= x < i ==> #[trigger] v[x] == self.proj[x * self.extent + dist],
            decreases self.d_rel - i,
        {
            assert(i * self.extent + dist < self.d_rel * self.extent && (i + 1) * self.extent == i
                * self.extent + self.extent && (i + 1 < self.d_rel ==> (i + 1) * self.extent + dist
                < self.d_rel * self.extent)) by (nonlinear_arith)
                requires
                    i < self.d_rel,
                    dist < self.extent,
            ;
            v.push(self.proj[at]);
            i += 1;
            if i < self.d_rel {
                at = at + self.extent;
            }
        }
        Some(v)
    }

    /// For each key position the profile entry that a query reads; nothing for a
    /// future key or one out of the extent, whose bias is zero.
    pub fn row(&self, q_pos: usize, key_positions: &[usize]) -> (r: Vec<Option<usize>>)
        ensures
            r.len() == key_positions.len(),
            forall|i: int| #![trigger r[i]]
                0 <= i < r.len() ==> r[i] == relative_entry(
                    q_pos as int,
                    key_positions[i] as int,
                    self.extent as int,
                ),
            forall|i: int| #![trigger r[i]]
                0 <= i < r.len() ==> match r[i] {
                    Some(d) => key_positions[i] + d == q_pos && d < self.extent,
                    None => q_pos < key_positions[i] || key_positions[i] + self.extent <= q_pos,
                },
    {
        let mut r: Vec<Option<usize>> = Vec::new();
        let mut i: usize = 0;
        while i < key_positions.len()
            invariant
                i <= key_positions.len(),
                r.len() == i,
                forall|x: int| #![trigger r[x]]
                    0 <= x < i ==> r[x] == relative_entry(
                        q_pos as int,
                        key_positions[x] as int,
                        self.extent as int,
                    ),
            decreases key_positions.len() - i,
        {
            let j: usize = key_positions[i];
            if j > q_pos || q_pos - j >= self.extent {
                r.push(None);
            } else {
                r.push(Some(q_pos - j));
            }
            i += 1;
        }
        r
    }
}

/// The profile entry of a key: its backward distance, where it is in the past and
/// within the extent.
pub open spec fn relative_entry(q_pos: int, key: int, extent: int) -> Option<usize> {
    if key > q_pos || q_pos - key >= extent {
        None
    } else {
        Some((q_pos - key) as usize)
    }
}

/// A key has an entry exactly where it lies at most `extent - 1` positions back, and
/// the entry is that distance.
pub proof fn law_entry_is_the_distance_back(q_pos: int, key: int, extent: int, d: usize)
    requires
        0 <= q_pos <= usize::MAX,
        0 <= key <= usize::MAX,
    ensures
        relative_entry(q_pos, key, extent) == Some(d) <==> key + d == q_pos && d < extent,
        relative_entry(q_pos, key, extent) is None <==> q_pos < key || key + extent <= q_pos,
{
}

} // verus!
