//! Per-token decode profile: time per section, routed bytes, page residency and how
//! often a layer's experts repeat from one token to the next.
use vstd::prelude::*;

use crate::text::{chars_of, same_text};

verus! {

/// Linear-attention layers.
pub const KDA: usize = 0;

/// Full-attention layers.
pub const MLA: usize = 1;

/// The residual mixtures of each layer.
pub const ATTNRES: usize = 2;

/// Gate scores and selection.
pub const ROUTER: usize = 3;

/// Routed and shared experts.
pub const EXPERTS: usize = 4;

/// A whole token.
pub const WALL: usize = 5;

/// Running totals.
#[derive(Clone, Copy)]
pub struct Totals {
    pub ns: [u64; 6],
    /// Bytes of routed experts, were none of them in memory.
    pub routed_bytes: u64,
    pub resident: u64,
    pub probed: u64,
    /// Routed experts that the layer selected for the previous token too.
    pub reused: u64,
    pub selected: u64,
}

/// A layer's last selection.
pub struct LastSelection {
    pub layer: u32,
    pub experts: Vec<u32>,
}

/// The profile of a process.
pub struct Prof {
    pub enabled: bool,
    pub tokens: u64,
    pub totals: Totals,
    /// The totals at the last report.
    pub reported: Totals,
    pub prefix_hits: u64,
    pub prefix_tokens: u64,
    pub window: Vec<LastSelection>,
}

/// A profile setting that is set, not empty and not `0` turns the profile on.
pub fn enabled_by(setting: Option<&str>) -> (b: bool)
    ensures
        b == (setting matches Some(s) && s@ != "0"@ && s@.len() > 0),
{
    match setting {
        None => false,
        Some(s) => {
            let v: Vec<char> = chars_of(s);
            v.len() > 0 && !same_text(s, "0")
        },
    }
}

/// A layer's last selection; empty where there is none.
pub open spec fn last_selected(w: Seq<LastSelection>, layer: u32) -> Seq<u32>
    decreases w.len(),
{
    if w.len() == 0 {
        Seq::empty()
    } else if w.last().layer == layer {
        w.last().experts@
    } else {
        last_selected(w.drop_last(), layer)
    }
}

/// How many of `experts` stand in `last`.
pub open spec fn repeated(experts: Seq<u32>, last: Seq<u32>) -> nat
    decreases experts.len(),
{
    if experts.len() == 0 {
        0
    } else {
        repeated(experts.drop_last(), last) + if last.contains(experts.last()) {
            1nat
        } else {
            0
        }
    }
}

fn no_totals() -> (t: Totals)
    ensures
        t.ns@ =~= seq![0u64, 0, 0, 0, 0, 0],
        t.routed_bytes == 0,
        t.resident == 0,
        t.probed == 0,
        t.reused == 0,
        t.selected == 0,
{
    Totals {
        ns: [0, 0, 0, 0, 0, 0],
        routed_bytes: 0,
        resident: 0,
        probed: 0,
        reused: 0,
        selected: 0,
    }
}

impl Prof {
    /// Each layer has at most one last selection.
    pub open spec fn wf(self) -> bool {
        forall|i: int, j: int|
            0 <= i < j < self.window.len() ==> (#[trigger] self.window[i]).layer != (
            #[trigger] self.window[j]).layer
    }

    pub fn new(enabled: bool) -> (p: Prof)
        ensures
            p.wf(),
            p.enabled == enabled,
            p.tokens == 0,
            p.totals.ns@ =~= seq![0u64, 0, 0, 0, 0, 0],
            p.totals.routed_bytes == 0,
            p.totals.resident == 0,
            p.totals.probed == 0,
            p.totals.reused == 0,
            p.totals.selected == 0,
            p.reported.ns@ =~= seq![0u64, 0, 0, 0, 0, 0],
            p.reported.routed_bytes == 0,
            p.reported.resident == 0,
            p.reported.probed == 0,
            p.reported.reused == 0,
            p.reported.selected == 0,
            p.prefix_hits == 0,
            p.prefix_tokens == 0,
            p.window.len() == 0,
    {
        Prof {
            enabled,
            tokens: 0,
            totals: no_totals(),
            reported: no_totals(),
            prefix_hits: 0,
            prefix_tokens: 0,
            window: Vec::new(),
        }
    }
}

/// The profile after a section's time was added.
pub open spec fn added(pre: Prof, post: Prof, bucket: int, ns: u64) -> bool {
    if pre.enabled {
        &&& post.totals.ns@ =~= pre.totals.ns@.update(
            bucket,
            pre.totals.ns@[bucket].wrapping_add(ns),
        )
        &&& post == (Prof { totals: (Totals { ns: post.totals.ns, ..pre.totals }), ..pre })
    } else {
        post == pre
    }
}

/// The profile after a layer's selection was recorded.
pub open spec fn routed(
    pre: Prof,
    post: Prof,
    layer: u32,
    experts: Seq<u32>,
    expert_bytes: usize,
) -> bool {
    if pre.enabled {
        &&& post == (Prof {
            totals: (Totals {
                routed_bytes: pre.totals.routed_bytes.wrapping_add(
                    (experts.len() * expert_bytes) as u64,
                ),
                selected: pre.totals.selected.wrapping_add(experts.len() as u64),
                reused: pre.totals.reused.wrapping_add(
                    repeated(experts, last_selected(pre.window@, layer)) as u64,
                ),
                ..pre.totals
            }),
            window: post.window,
            ..pre
        })
        &&& last_selected(post.window@, layer) =~= experts
        &&& forall|l: u32|
            l != layer ==> #[trigger] last_selected(post.window@, l) == last_selected(
                pre.window@,
                l,
            )
    } else {
        post == pre
    }
}

/// The profile after a residency sample.
pub open spec fn sampled(pre: Prof, post: Prof, resident: usize, probed: usize) -> bool {
    if pre.enabled {
        post == (Prof {
            totals: (Totals {
                resident: pre.totals.resident.wrapping_add(resident as u64),
                probed: pre.totals.probed.wrapping_add(probed as u64),
                ..pre.totals
            }),
            ..pre
        })
    } else {
        post == pre
    }
}

/// The profile after a sequence began.
pub open spec fn restarted(pre: Prof, post: Prof) -> bool {
    if pre.enabled {
        post.window.len() == 0 && post == (Prof { window: post.window, ..pre })
    } else {
        post == pre
    }
}

/// The profile after a report.
pub open spec fn dumped(pre: Prof, post: Prof, r: Option<ProfLine>) -> bool {
    match r {
        Some(l) => {
            &&& pre.enabled
            &&& l.token == pre.tokens + 1
            &&& l.total_bytes == pre.totals.routed_bytes
            &&& l.delta.routed_bytes == since(
                pre.totals.routed_bytes,
                pre.reported.routed_bytes,
            )
            &&& l.delta.resident == since(pre.totals.resident, pre.reported.resident)
            &&& l.delta.probed == since(pre.totals.probed, pre.reported.probed)
            &&& l.delta.reused == since(pre.totals.reused, pre.reported.reused)
            &&& l.delta.selected == since(pre.totals.selected, pre.reported.selected)
            &&& forall|i: int|
                0 <= i < 6 ==> #[trigger] l.delta.ns@[i] == since(
                    pre.totals.ns@[i],
                    pre.reported.ns@[i],
                )
            &&& post == (Prof {
                tokens: (pre.tokens + 1) as u64,
                reported: pre.totals,
                ..pre
            })
        },
        None => !pre.enabled && post == pre,
    }
}

/// A profile that is off stays as it is whatever is recorded, and reports nothing.
pub proof fn law_disabled_profile_is_inert(
    pre: Prof,
    post: Prof,
    bucket: int,
    ns: u64,
    layer: u32,
    experts: Seq<u32>,
    expert_bytes: usize,
    resident: usize,
    probed: usize,
    line: Option<ProfLine>,
)
    requires
        !pre.enabled,
        added(pre, post, bucket, ns) || routed(pre, post, layer, experts, expert_bytes) || sampled(
            pre,
            post,
            resident,
            probed,
        ) || restarted(pre, post) || dumped(pre, post, line),
    ensures
        post == pre,
        dumped(pre, post, line) ==> line is None,
{
}

/// Adds the time of a section. Nothing where the profile is off.
pub fn add(p: &mut Prof, bucket: usize, ns: u64)
    requires
        old(p).enabled ==> bucket < 6,
        old(p).wf(),
    ensures
        final(p).wf(),
        added(*old(p), *final(p), bucket as int, ns),
{
    if p.enabled {
        let n: u64 = p.totals.ns[bucket].wrapping_add(ns);
        p.totals.ns[bucket] = n;
    }
}

/// Records the routed experts that a layer selected for a token.
pub fn record_routing(p: &mut Prof, layer: u32, experts: &[u32], expert_bytes: usize)
    requires
        old(p).wf(),
        old(p).enabled ==> experts.len() * expert_bytes <= u64::MAX,
    ensures
        final(p).wf(),
        routed(*old(p), *final(p), layer, experts@, expert_bytes),
{
    if !p.enabled {
        return;
    }
    let at: Option<usize> = find_layer(&p.window, layer);
    let n: u64 = match at {
        Some(i) => count_repeated(experts, p.window[i].experts.as_slice()),
        None => count_repeated(experts, Vec::new().as_slice()),
    };
    p.totals.routed_bytes = p.totals.routed_bytes.wrapping_add(
        experts.len() as u64 * expert_bytes as u64,
    );
    p.totals.selected = p.totals.selected.wrapping_add(experts.len() as u64);
    p.totals.reused = p.totals.reused.wrapping_add(n);
    let mut copy: Vec<u32> = Vec::new();
    copy.extend_from_slice(experts);
    proof {
        assert(copy@ =~= experts@);
    }
    let fresh = LastSelection { layer, experts: copy };
    let ghost before = p.window@;
    match at {
        Some(i) => {
            p.window.set(i, fresh);
            proof {
                lemma_window_set(before, p.window@, i as int, layer);
            }
        },
        None => {
            p.window.push(fresh);
            proof {
                assert(p.window@.drop_last() =~= before);
                lemma_no_layer(before, layer);
            }
        },
    }
}

fn find_layer(w: &Vec<LastSelection>, layer: u32) -> (at: Option<usize>)
    ensures
        match at {
            Some(i) => i < w.len() && w[i as int].layer == layer && last_selected(w@, layer)
                == w[i as int].experts@,
            None => last_selected(w@, layer) =~= Seq::<u32>::empty() && forall|j: int|
                0 <= j < w.len() ==> (#[trigger] w[j]).layer != layer,
        },
{
    let mut n: usize = w.len();
    proof {
        assert(w@.take(n as int) =~= w@);
    }
    while n > 0
        invariant
            n <= w.len(),
            last_selected(w@, layer) == last_selected(w@.take(n as int), layer),
            forall|j: int| n <= j < w.len() ==> (#[trigger] w[j]).layer != layer,
        decreases n,
    {
        proof {
            assert(w@.take(n as int).drop_last() =~= w@.take(n - 1));
        }
        if w[n - 1].layer == layer {
            return Some(n - 1);
        }
        n -= 1;
    }
    None
}

fn count_repeated(experts: &[u32], last: &[u32]) -> (n: u64)
    ensures
        n == repeated(experts@, last@),
        n <= experts.len(),
{
    let mut n: u64 = 0;
    let mut i: usize = 0;
    while i < experts.len()
        invariant
            i <= experts.len(),
            n <= i,
            n == repeated(experts@.take(i as int), last@),
        decreases experts.len() - i,
    {
        proof {
            assert(experts@.take(i + 1).drop_last() =~= experts@.take(i as int));
        }
        let e: u32 = experts[i];
        let mut found: bool = false;
        let mut j: usize = 0;
        while j < last.len()
            invariant
                j <= last.len(),
                found == exists|x: int| 0 <= x < j && #[trigger] last[x] == e,
            decreases last.len() - j,
        {
            if last[j] == e {
                found = true;
            }
            j += 1;
        }
        proof {
            assert(found == last@.contains(e)) by {
                if found {
                    let x = choose|x: int| 0 <= x < last.len() && #[trigger] last[x] == e;
                    assert(last@[x] == e);
                }
                if last@.contains(e) {
                    let x = choose|x: int| 0 <= x < last@.len() && last@[x] == e;
                    assert(last[x] == e);
                }
            }
        }
        if found {
            n = n + 1;
        }
        i += 1;
    }
    proof {
        assert(experts@.take(experts.len() as int) =~= experts@);
    }
    n
}

proof fn lemma_no_layer(w: Seq<LastSelection>, layer: u32)
    ensures
        (forall|j: int| 0 <= j < w.len() ==> (#[trigger] w[j]).layer != layer) ==> last_selected(
            w,
            layer,
        ) =~= Seq::<u32>::empty(),
    decreases w.len(),
{
    if w.len() > 0 {
        lemma_no_layer(w.drop_last(), layer);
    }
}

proof fn lemma_window_set(a: Seq<LastSelection>, b: Seq<LastSelection>, i: int, layer: u32)
    requires
        0 <= i < a.len(),
        b.len() == a.len(),
        a[i].layer == layer,
        b[i].layer == layer,
        forall|j: int| 0 <= j < a.len() && j != i ==> a[j] == b[j],
        forall|x: int, y: int|
            0 <= x < y < a.len() ==> (#[trigger] a[x]).layer != (#[trigger] a[y]).layer,
    ensures
        last_selected(b, layer) == b[i].experts@,
        forall|l: u32| l != layer ==> #[trigger] last_selected(b, l) == last_selected(a, l),
    decreases a.len(),
{
    let n = a.len() - 1;
    if i == n {
        assert(a.drop_last() =~= b.drop_last());
    } else {
        assert(a[i].layer != a[n].layer);
        lemma_window_set(a.drop_last(), b.drop_last(), i, layer);
        assert forall|l: u32| l != layer implies #[trigger] last_selected(b, l) == last_selected(
            a,
            l,
        ) by {
            assert(last_selected(b.drop_last(), l) == last_selected(a.drop_last(), l));
        }
    }
}

/// Folds in a residency sample.
pub fn record_residency(p: &mut Prof, resident: usize, probed: usize)
    requires
        old(p).wf(),
    ensures
        final(p).wf(),
        sampled(*old(p), *final(p), resident, probed),
{
    if p.enabled {
        p.totals.resident = p.totals.resident.wrapping_add(resident as u64);
        p.totals.probed = p.totals.probed.wrapping_add(probed as u64);
    }
}

/// Forgets the last selections at the start of a sequence.
pub fn new_sequence(p: &mut Prof)
    requires
        old(p).wf(),
    ensures
        final(p).wf(),
        restarted(*old(p), *final(p)),
{
    if p.enabled {
        p.window = Vec::new();
    }
}

/// What the last token cost.
#[derive(Clone, Copy)]
pub struct ProfLine {
    /// Tokens reported, this one included. The first one carries the prefill.
    pub token: u64,
    /// What was added since the last report.
    pub delta: Totals,
    /// Routed bytes in all.
    pub total_bytes: u64,
}

pub open spec fn since(now: u64, before: u64) -> u64 {
    if now >= before {
        (now - before) as u64
    } else {
        0
    }
}

/// Reports what was added since the last report. Nothing where the profile is off.
pub fn dump(p: &mut Prof) -> (r: Option<ProfLine>)
    requires
        old(p).wf(),
        old(p).enabled ==> old(p).tokens < u64::MAX,
    ensures
        final(p).wf(),
        dumped(*old(p), *final(p), r),
{
    if !p.enabled {
        return None;
    }
    p.tokens = p.tokens + 1;
    let mut delta: Totals = no_totals();
    let mut i: usize = 0;
    while i < 6
        invariant
            i <= 6,
            p.totals == old(p).totals,
            p.reported == old(p).reported,
            delta.routed_bytes == 0,
            forall|x: int|
                0 <= x < i ==> #[trigger] delta.ns@[x] == since(
                    old(p).totals.ns@[x],
                    old(p).reported.ns@[x],
                ),
        decreases 6 - i,
    {
        let d: u64 = p.totals.ns[i].saturating_sub(p.reported.ns[i]);
        delta.ns[i] = d;
        i += 1;
    }
    delta.routed_bytes = p.totals.routed_bytes.saturating_sub(p.reported.routed_bytes);
    delta.resident = p.totals.resident.saturating_sub(p.reported.resident);
    delta.probed = p.totals.probed.saturating_sub(p.reported.probed);
    delta.reused = p.totals.reused.saturating_sub(p.reported.reused);
    delta.selected = p.totals.selected.saturating_sub(p.reported.selected);
    p.reported = p.totals;
    Some(ProfLine { token: p.tokens, delta, total_bytes: p.totals.routed_bytes })
}

/// Records that the prefix store served `consumed` prompt tokens.
pub fn note_prefix_hit(p: &mut Prof, consumed: usize)
    ensures
        *final(p) == (Prof {
            prefix_hits: old(p).prefix_hits.wrapping_add(1),
            prefix_tokens: old(p).prefix_tokens.wrapping_add(consumed as u64),
            ..*old(p)
        }),
{
    p.prefix_hits = p.prefix_hits.wrapping_add(1);
    p.prefix_tokens = p.prefix_tokens.wrapping_add(consumed as u64);
}

/// Hits of the prefix store and the tokens that they served.
pub fn prefix_stats(p: &Prof) -> (r: (u64, u64))
    ensures
        r == (p.prefix_hits, p.prefix_tokens),
{
    (p.prefix_hits, p.prefix_tokens)
}

/// Repeated experts are those of a step that the layer selected last time too.
pub proof fn law_repeats_were_selected_last_time(experts: Seq<u32>, last: Seq<u32>)
    ensures
        repeated(experts, last) == experts.filter(|e: u32| last.contains(e)).len(),
    decreases experts.len(),
{
    reveal(Seq::filter);
    if experts.len() > 0 {
        law_repeats_were_selected_last_time(experts.drop_last(), last);
    }
}

/// What a layer selected last is what the window holds for it, and nothing where it
/// holds nothing.
pub proof fn law_last_selection_of_a_layer(w: Seq<LastSelection>, layer: u32, i: int)
    requires
        forall|x: int, y: int|
            0 <= x < y < w.len() ==> (#[trigger] w[x]).layer != (#[trigger] w[y]).layer,
        0 <= i < w.len(),
    ensures
        w[i].layer == layer ==> last_selected(w, layer) == w[i].experts@,
        (forall|x: int| 0 <= x < w.len() ==> (#[trigger] w[x]).layer != layer) ==> last_selected(
            w,
            layer,
        ) =~= Seq::<u32>::empty(),
    decreases w.len(),
{
    let d = w.drop_last();
    assert forall|x: int| 0 <= x < d.len() implies #[trigger] d[x] == w[x] by {}
    if w.last().layer == layer {
        if i < d.len() && w[i].layer == layer {
            assert(w[i].layer != w[w.len() - 1].layer);
        }
        assert(w[w.len() - 1].layer == layer);
    } else if d.len() > 0 {
        let j: int = if i < d.len() {
            i
        } else {
            0
        };
        law_last_selection_of_a_layer(d, layer, j);
    }
}

/// What has been added since: the difference of two readings of a counter that grows.
pub proof fn law_since_is_the_difference(now: u64, before: u64)
    ensures
        now >= before ==> since(now, before) + before == now,
        now < before ==> since(now, before) == 0,
{
}

/// A time is added to its own section; the other sections and counters stay.
pub proof fn law_times_go_to_their_section(
    pre: Prof,
    post: Prof,
    bucket: int,
    ns: u64,
    other: int,
)
    requires
        pre.enabled,
        added(pre, post, bucket, ns),
        0 <= bucket < 6,
        0 <= other < 6,
        other != bucket,
        pre.totals.ns@[bucket] + ns <= u64::MAX,
    ensures
        post.totals.ns@[bucket] == pre.totals.ns@[bucket] + ns,
        post.totals.ns@[other] == pre.totals.ns@[other],
        post.totals.selected == pre.totals.selected,
        post.totals.routed_bytes == pre.totals.routed_bytes,
        post.tokens == pre.tokens,
{
}

/// A selection adds its experts, their bytes and those that the layer selected last time
/// too, and is what the layer selected last from then on.
pub proof fn law_a_selection_is_recorded(
    pre: Prof,
    post: Prof,
    layer: u32,
    experts: Seq<u32>,
    expert_bytes: usize,
    other: u32,
)
    requires
        pre.enabled,
        routed(pre, post, layer, experts, expert_bytes),
        pre.totals.selected + experts.len() <= u64::MAX,
        pre.totals.reused + experts.len() <= u64::MAX,
        pre.totals.routed_bytes + experts.len() * expert_bytes <= u64::MAX,
        other != layer,
    ensures
        post.totals.selected - pre.totals.selected == experts.len(),
        post.totals.routed_bytes - pre.totals.routed_bytes == experts.len() * expert_bytes,
        post.totals.reused - pre.totals.reused == experts.filter(
            |e: u32| last_selected(pre.window@, layer).contains(e),
        ).len(),
        last_selected(post.window@, layer) =~= experts,
        last_selected(post.window@, other) == last_selected(pre.window@, other),
        post.totals.ns == pre.totals.ns,
        post.totals.resident == pre.totals.resident,
        post.totals.probed == pre.totals.probed,
{
    law_repeats_were_selected_last_time(experts, last_selected(pre.window@, layer));
    lemma_repeated_bound(experts, last_selected(pre.window@, layer));
    assert(0 <= experts.len() * expert_bytes) by (nonlinear_arith);
}

proof fn lemma_repeated_bound(experts: Seq<u32>, last: Seq<u32>)
    ensures
        repeated(experts, last) <= experts.len(),
    decreases experts.len(),
{
    if experts.len() > 0 {
        lemma_repeated_bound(experts.drop_last(), last);
    }
}

/// A sample adds the pages that were in memory and those that were asked about.
pub proof fn law_a_sample_is_recorded(pre: Prof, post: Prof, resident: usize, probed: usize)
    requires
        pre.enabled,
        sampled(pre, post, resident, probed),
        pre.totals.resident + resident <= u64::MAX,
        pre.totals.probed + probed <= u64::MAX,
    ensures
        post.totals.resident == pre.totals.resident + resident,
        post.totals.probed == pre.totals.probed + probed,
        post.totals.ns == pre.totals.ns,
        post.totals.selected == pre.totals.selected,
{
}

/// A line tells what was added since the line before: right after one, the next tells
/// nothing new.
pub proof fn law_a_line_tells_what_was_added(
    pre: Prof,
    mid: Prof,
    post: Prof,
    a: Option<ProfLine>,
    b: Option<ProfLine>,
    i: int,
)
    requires
        pre.enabled,
        dumped(pre, mid, a),
        dumped(mid, post, b),
        pre.tokens + 2 <= u64::MAX,
        0 <= i < 6,
        pre.reported.routed_bytes <= pre.totals.routed_bytes,
        pre.reported.selected <= pre.totals.selected,
        pre.reported.reused <= pre.totals.reused,
        pre.reported.resident <= pre.totals.resident,
        pre.reported.probed <= pre.totals.probed,
        pre.reported.ns@[i] <= pre.totals.ns@[i],
    ensures
        a is Some && b is Some,
        a->0.delta.routed_bytes == pre.totals.routed_bytes - pre.reported.routed_bytes,
        a->0.delta.selected == pre.totals.selected - pre.reported.selected,
        a->0.delta.reused == pre.totals.reused - pre.reported.reused,
        a->0.delta.resident == pre.totals.resident - pre.reported.resident,
        a->0.delta.probed == pre.totals.probed - pre.reported.probed,
        a->0.delta.ns@[i] == pre.totals.ns@[i] - pre.reported.ns@[i],
        a->0.total_bytes == pre.totals.routed_bytes,
        b->0.delta.routed_bytes == 0 && b->0.delta.selected == 0 && b->0.delta.ns@[i] == 0,
        a->0.token == pre.tokens + 1,
        b->0.token == pre.tokens + 2,
        post.totals == pre.totals,
{
}

/// A new sequence forgets the last selections and keeps every counter.
pub proof fn law_a_new_sequence_keeps_the_counters(pre: Prof, post: Prof, layer: u32)
    requires
        pre.enabled,
        restarted(pre, post),
    ensures
        last_selected(post.window@, layer) =~= Seq::<u32>::empty(),
        post.totals == pre.totals,
        post.reported == pre.reported,
        post.tokens == pre.tokens,
{
}

} // verus!
