//! The loop of an expert worker: one frame at a time, decided here and carried
//! out by the transport around it.
//!
//! A worker answers every frame that it can read. It serves expert dispatches,
//! refuses everything else, and reports the loss of its driver exactly once, so
//! that the loop around it ends and is rebuilt.
use vstd::prelude::*;

verus! {

/// The kinds of frame that a worker tells apart.
#[derive(Clone, Copy, PartialEq, Eq, Structural, Debug)]
pub enum FrameKind {
    ExpertDispatch,
    FusedExpertDispatch,
    RestorePrefix,
    CachePrefix,
    Other,
}

/// What the worker does with a frame.
#[derive(Clone, Copy, PartialEq, Eq, Structural, Debug)]
pub enum FrameAction {
    /// The driver closed the connection.
    Closed,
    /// Read a dispatch and serve it.
    Serve,
    /// Read a fused dispatch and serve it.
    ServeFused,
    /// Read the fixed body, so that the stream stays aligned, then refuse.
    DrainAndReject,
    /// Refuse.
    Reject,
}

/// The reply to a served dispatch.
#[derive(Clone, Copy, PartialEq, Eq, Structural, Debug)]
pub enum ReplyForm {
    /// Full precision values.
    Full { slots: u32 },
    /// Half precision where that loses nothing, by this exponent.
    Lossless { slots: u32, exponent: i32 },
}

/// How a step of the worker ends.
#[derive(Clone, Copy, PartialEq, Eq, Structural, Debug)]
pub enum StepOutcome {
    /// Nothing to report; take another step.
    Continue,
    /// Nothing to report; wait before the next step.
    Backoff,
    /// The connection is gone.
    NotConnected,
    /// The transport failed for good with its own error.
    Fatal,
}

/// What a step starts with.
#[derive(Clone, Copy, PartialEq, Eq, Structural, Debug)]
pub enum StepStart {
    /// Serve one frame.
    ServeOne,
    /// End the step at once.
    End(StepOutcome),
}

/// How serving one frame went.
#[derive(Clone, Copy, PartialEq, Eq, Structural, Debug)]
pub enum ServeOutcome {
    Done,
    Failed { connection_fatal: bool },
}

/// The state of a worker's loop.
pub struct ExpertWorkerEngine {
    pub peer_disconnected: bool,
    pub disconnect_reported: bool,
    pub frames: u64,
}

impl ExpertWorkerEngine {
    /// A loss that was reported has happened.
    pub open spec fn wf(self) -> bool {
        self.disconnect_reported ==> self.peer_disconnected
    }

    pub fn new() -> (e: Self)
        ensures
            e.wf(),
            !e.peer_disconnected,
            !e.disconnect_reported,
            e.frames == 0,
    {
        ExpertWorkerEngine { peer_disconnected: false, disconnect_reported: false, frames: 0 }
    }

    /// Frames served so far.
    pub fn frames_served(&self) -> (n: u64)
        ensures
            n == self.frames,
    {
        self.frames
    }

    /// Decides what to do with the next frame; no frame means a clean close.
    pub fn serve_one(&mut self, kind: Option<FrameKind>) -> (a: FrameAction)
        requires
            old(self).wf(),
        ensures
            final(self).wf(),
            a == (match kind {
                None => FrameAction::Closed,
                Some(FrameKind::ExpertDispatch) => FrameAction::Serve,
                Some(FrameKind::FusedExpertDispatch) => FrameAction::ServeFused,
                Some(FrameKind::RestorePrefix) => FrameAction::DrainAndReject,
                Some(FrameKind::CachePrefix) => FrameAction::DrainAndReject,
                Some(FrameKind::Other) => FrameAction::Reject,
            }),
            final(self).peer_disconnected == (old(self).peer_disconnected || kind is None),
            final(self).disconnect_reported == old(self).disconnect_reported,
            final(self).frames == old(self).frames,
    {
        match kind {
            None => {
                self.peer_disconnected = true;
                FrameAction::Closed
            },
            Some(FrameKind::ExpertDispatch) => FrameAction::Serve,
            Some(FrameKind::FusedExpertDispatch) => FrameAction::ServeFused,
            Some(FrameKind::RestorePrefix) => FrameAction::DrainAndReject,
            Some(FrameKind::CachePrefix) => FrameAction::DrainAndReject,
            Some(FrameKind::Other) => FrameAction::Reject,
        }
    }

    /// A fused dispatch is well formed where its weights have one entry per slot.
    pub fn fused_weights_fit(&self, shape: &[u32; 3], rows: u32, k: u32) -> (b: bool)
        ensures
            b == (shape@ == seq![rows, k, 1u32]),
    {
        let b: bool = shape[0] == rows && shape[1] == k && shape[2] == 1;
        proof {
            let want = seq![rows, k, 1u32];
            if b {
                assert(shape@ =~= want);
            } else {
                assert(want[0] == rows && want[1] == k && want[2] == 1u32);
            }
        }
        b
    }

    /// The form of the reply to a dispatch: compact only where the shard has an
    /// exponent for the layer and the wire asks for it.
    pub fn reply_form(&self, k: u32, exponent: Option<i32>, f16_wire: bool) -> (f: ReplyForm)
        ensures
            f == (match exponent {
                Some(e) if f16_wire => ReplyForm::Lossless { slots: k, exponent: e },
                _ => ReplyForm::Full { slots: k },
            }),
    {
        match exponent {
            Some(e) => if f16_wire {
                ReplyForm::Lossless { slots: k, exponent: e }
            } else {
                ReplyForm::Full { slots: k }
            },
            None => ReplyForm::Full { slots: k },
        }
    }

    /// Counts one frame that was served and answered.
    pub fn served(&mut self)
        requires
            old(self).frames < u64::MAX,
        ensures
            final(self).frames == old(self).frames + 1,
            final(self).peer_disconnected == old(self).peer_disconnected,
            final(self).disconnect_reported == old(self).disconnect_reported,
    {
        self.frames = self.frames + 1;
    }

    /// The start of a step.
    pub fn step_begin(&mut self) -> (s: StepStart)
        requires
            old(self).wf(),
        ensures
            final(self).wf(),
            final(self).peer_disconnected == old(self).peer_disconnected,
            final(self).frames == old(self).frames,
            final(self).disconnect_reported == old(self).peer_disconnected,
            s == if !old(self).peer_disconnected {
                StepStart::ServeOne
            } else if !old(self).disconnect_reported {
                StepStart::End(StepOutcome::NotConnected)
            } else {
                StepStart::End(StepOutcome::Backoff)
            },
    {
        if !self.peer_disconnected {
            return StepStart::ServeOne;
        }
        if !self.disconnect_reported {
            self.disconnect_reported = true;
            return StepStart::End(StepOutcome::NotConnected);
        }
        StepStart::End(StepOutcome::Backoff)
    }

    /// The end of a step that served a frame.
    pub fn step_end(&mut self, outcome: ServeOutcome) -> (o: StepOutcome)
        requires
            old(self).wf(),
            !old(self).disconnect_reported,
        ensures
            final(self).wf(),
            final(self).frames == old(self).frames,
            o == (match outcome {
                ServeOutcome::Failed { connection_fatal } => if connection_fatal {
                    StepOutcome::Fatal
                } else {
                    StepOutcome::Backoff
                },
                ServeOutcome::Done => if old(self).peer_disconnected {
                    StepOutcome::NotConnected
                } else {
                    StepOutcome::Continue
                },
            }),
            final(self).peer_disconnected == (old(self).peer_disconnected || o is Fatal),
            final(self).disconnect_reported == (o is Fatal || o is NotConnected),
    {
        match outcome {
            ServeOutcome::Failed { connection_fatal } => {
                if connection_fatal {
                    self.peer_disconnected = true;
                    self.disconnect_reported = true;
                    StepOutcome::Fatal
                } else {
                    StepOutcome::Backoff
                }
            },
            ServeOutcome::Done => {
                if self.peer_disconnected {
                    self.disconnect_reported = true;
                    StepOutcome::NotConnected
                } else {
                    StepOutcome::Continue
                }
            },
        }
    }

    /// Closes the worker: nothing is left to report.
    pub fn close(&mut self)
        ensures
            final(self).wf(),
            final(self).peer_disconnected,
            final(self).disconnect_reported,
            final(self).frames == old(self).frames,
    {
        self.peer_disconnected = true;
        self.disconnect_reported = true;
    }
}

/// How the state of a worker may change in one step that reports `outcome`.
pub open spec fn step_relation(
    before: ExpertWorkerEngine,
    after: ExpertWorkerEngine,
    outcome: StepOutcome,
) -> bool {
    &&& before.peer_disconnected ==> after.peer_disconnected
    &&& before.disconnect_reported ==> after.disconnect_reported && outcome is Backoff
    &&& outcome is NotConnected || outcome is Fatal ==> after.disconnect_reported
        && after.peer_disconnected
}

/// A step that serves a frame moves the worker as [`step_relation`] says, and so
/// does a step that ends at once.
pub proof fn law_a_step_reports_a_loss_at_most_once(
    before: ExpertWorkerEngine,
    begun: ExpertWorkerEngine,
    start: StepStart,
    served: ExpertWorkerEngine,
    after: ExpertWorkerEngine,
    end: StepOutcome,
)
    requires
        before.wf(),
        begun.peer_disconnected == before.peer_disconnected,
        begun.disconnect_reported == before.peer_disconnected,
        start == if !before.peer_disconnected {
            StepStart::ServeOne
        } else if !before.disconnect_reported {
            StepStart::End(StepOutcome::NotConnected)
        } else {
            StepStart::End(StepOutcome::Backoff)
        },
        start is ServeOne ==> {
            &&& begun.peer_disconnected ==> served.peer_disconnected
            &&& served.disconnect_reported == begun.disconnect_reported
            &&& after.peer_disconnected == (served.peer_disconnected || end is Fatal)
            &&& after.disconnect_reported == (end is Fatal || end is NotConnected)
            &&& end is NotConnected ==> served.peer_disconnected
        },
    ensures
        start matches StepStart::End(o) ==> step_relation(before, begun, o),
        start is ServeOne ==> step_relation(before, after, end),
{
}

/// After the step that reports the loss of the driver, every later step reports
/// nothing.
pub proof fn law_a_loss_is_reported_once(
    states: Seq<ExpertWorkerEngine>,
    outcomes: Seq<StepOutcome>,
    i: int,
    j: int,
)
    requires
        states.len() == outcomes.len() + 1,
        forall|n: int|
            0 <= n < outcomes.len() ==> step_relation(
                states[n],
                states[n + 1],
                #[trigger] outcomes[n],
            ),
        0 <= i < j < outcomes.len(),
        outcomes[i] is NotConnected || outcomes[i] is Fatal,
    ensures
        outcomes[j] is Backoff,
    decreases j - i,
{
    assert(step_relation(states[i], states[i + 1], outcomes[i]));
    lemma_reported_stays(states, outcomes, i + 1, j);
    assert(step_relation(states[j], states[j + 1], outcomes[j]));
}

proof fn lemma_reported_stays(
    states: Seq<ExpertWorkerEngine>,
    outcomes: Seq<StepOutcome>,
    i: int,
    j: int,
)
    requires
        states.len() == outcomes.len() + 1,
        forall|n: int|
            0 <= n < outcomes.len() ==> step_relation(
                states[n],
                states[n + 1],
                #[trigger] outcomes[n],
            ),
        0 <= i <= j < states.len(),
        states[i].disconnect_reported,
    ensures
        states[j].disconnect_reported,
    decreases j - i,
{
    if i < j {
        assert(step_relation(states[i], states[i + 1], outcomes[i]));
        lemma_reported_stays(states, outcomes, i + 1, j);
    }
}

} // verus!
