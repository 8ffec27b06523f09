//! Sending requests ahead of their responses.
//!
//! A client that never reads responses while it sends requests can end up
//! waiting for the server while the server waits for it. Requests are therefore
//! sent without waiting as long as responses are outstanding.

use vstd::prelude::*;

verus! {

/// How many responses are outstanding at most if every request goes through a pipeline.
pub const MAX_PENDING: u32 = 8;

/// What a pipeline is about to do.
#[derive(Copy, Clone, Eq, PartialEq, Debug, Structural)]
pub enum Phase {
    /// Receiving responses: wait until no more than `remaining` are outstanding,
    /// and take those that are there already. A request may be sent afterwards.
    Drain { remaining: u32, then_send: bool },
    /// Sending a request.
    Send,
    Done,
}

/// What to do with the connection next.
#[derive(Copy, Clone, Eq, PartialEq, Debug, Structural)]
pub enum PipelineAction {
    Receive { wait: bool },
    Send { wait: bool },
    Done,
}

/// A request on its way, or responses on theirs.
#[derive(Copy, Clone, Eq, PartialEq, Debug, Structural)]
pub struct Pipeline {
    pub pending: u32,
    pub phase: Phase,
}

/// The phase after responses were received.
pub open spec fn phase_after(then_send: bool) -> Phase {
    if then_send {
        Phase::Send
    } else {
        Phase::Done
    }
}

/// A drain is over when nothing is outstanding.
pub open spec fn drain_phase(pending: u32, remaining: u32, then_send: bool) -> Phase {
    if pending == 0 {
        phase_after(then_send)
    } else {
        Phase::Drain { remaining, then_send }
    }
}

fn compute_drain_phase(pending: u32, remaining: u32, then_send: bool) -> (phase: Phase)
    ensures
        phase == drain_phase(pending, remaining, then_send),
{
    if pending > 0 {
        Phase::Drain { remaining, then_send }
    } else if then_send {
        Phase::Send
    } else {
        Phase::Done
    }
}

impl Pipeline {
    /// Only responses that are outstanding are waited for, and one more request can be
    /// counted when it is sent.
    pub open spec fn wf(self) -> bool {
        &&& self.phase is Send ==> self.pending < u32::MAX
        &&& self.phase is Drain ==> self.pending > 0
        &&& self.phase matches Phase::Drain { remaining, then_send } ==> (then_send ==> remaining
            < u32::MAX)
    }

    /// No more than the usual number of responses are outstanding, also after a request
    /// that is about to be sent.
    pub open spec fn is_bounded(self) -> bool {
        &&& self.pending <= MAX_PENDING
        &&& self.phase is Send ==> self.pending < MAX_PENDING
        &&& self.phase matches Phase::Drain { remaining, then_send } ==> (then_send ==> remaining
            < MAX_PENDING)
    }

    /// Begins to send a request. If many responses are outstanding, half of them
    /// are received first.
    pub fn begin_request(pending: u32) -> (pipeline: Pipeline)
        ensures
            pipeline.wf(),
            pending <= MAX_PENDING ==> pipeline.is_bounded(),
            pipeline.pending == pending,
            pipeline.phase == if pending >= MAX_PENDING {
                Phase::Drain { remaining: pending / 2, then_send: true }
            } else {
                Phase::Send
            },
    {
        Pipeline {
            pending,
            phase: if pending >= MAX_PENDING {
                Phase::Drain { remaining: pending / 2, then_send: true }
            } else {
                Phase::Send
            },
        }
    }

    /// Begins to receive responses until no more than `remaining` are left.
    pub fn begin_drain(pending: u32, remaining: u32) -> (pipeline: Pipeline)
        ensures
            pipeline.wf(),
            pending <= MAX_PENDING ==> pipeline.is_bounded(),
            pipeline.pending == pending,
            pipeline.phase == drain_phase(pending, remaining, false),
    {
        Pipeline { pending, phase: compute_drain_phase(pending, remaining, false) }
    }

    pub open spec fn spec_action(self) -> PipelineAction {
        match self.phase {
            Phase::Drain { remaining, .. } => PipelineAction::Receive {
                wait: self.pending > remaining,
            },
            Phase::Send => PipelineAction::Send { wait: self.pending == 0 },
            Phase::Done => PipelineAction::Done,
        }
    }

    /// What to do with the connection next.
    pub fn action(&self) -> (action: PipelineAction)
        ensures
            action == self.spec_action(),
    {
        match self.phase {
            Phase::Drain { remaining, .. } => PipelineAction::Receive {
                wait: self.pending > remaining,
            },
            Phase::Send => PipelineAction::Send { wait: self.pending == 0 },
            Phase::Done => PipelineAction::Done,
        }
    }

    /// A response was received.
    pub fn received(self) -> (next: Pipeline)
        requires
            self.wf(),
            self.phase is Drain,
        ensures
            next.wf(),
            self.is_bounded() ==> next.is_bounded(),
            next.pending == self.pending - 1,
            self.phase matches Phase::Drain { remaining, then_send } ==> next.phase == drain_phase(
                (self.pending - 1) as u32,
                remaining,
                then_send,
            ),
    {
        let pending: u32 = self.pending - 1;
        match self.phase {
            Phase::Drain { remaining, then_send } => Pipeline {
                pending,
                phase: compute_drain_phase(pending, remaining, then_send),
            },
            _ => self,
        }
    }

    /// No response was there to be received, and none was waited for.
    pub fn nothing_received(self) -> (next: Pipeline)
        requires
            self.wf(),
            self.spec_action() == (PipelineAction::Receive { wait: false }),
        ensures
            next.wf(),
            self.is_bounded() ==> next.is_bounded(),
            next.pending == self.pending,
            self.phase matches Phase::Drain { remaining, then_send } ==> next.phase == phase_after(
                then_send,
            ),
    {
        match self.phase {
            Phase::Drain { remaining, then_send } => Pipeline {
                pending: self.pending,
                phase: if then_send {
                    Phase::Send
                } else {
                    Phase::Done
                },
            },
            _ => self,
        }
    }

    /// The request was sent.
    pub fn sent(self) -> (next: Pipeline)
        requires
            self.wf(),
            self.phase is Send,
        ensures
            next.wf(),
            self.is_bounded() ==> next.is_bounded(),
            next.pending == self.pending + 1,
            next.phase == Phase::Done,
    {
        Pipeline { pending: self.pending + 1, phase: Phase::Done }
    }

    /// The request could not be sent without waiting: receive half of the
    /// responses that are outstanding.
    pub fn not_sent(self) -> (next: Pipeline)
        requires
            self.wf(),
            self.spec_action() == (PipelineAction::Send { wait: false }),
        ensures
            next.wf(),
            self.is_bounded() ==> next.is_bounded(),
            next.pending == self.pending,
            next.phase == (Phase::Drain { remaining: self.pending / 2, then_send: true }),
    {
        Pipeline {
            pending: self.pending,
            phase: Phase::Drain { remaining: self.pending / 2, then_send: true },
        }
    }
}

/// A client never waits for the server to take a request while responses are
/// outstanding.
pub proof fn lemma_no_mutual_wait(pipeline: Pipeline)
    requires
        pipeline.wf(),
        pipeline.spec_action() == (PipelineAction::Send { wait: true }),
    ensures
        pipeline.pending == 0,
{
}

/// A client never waits for a response that is not outstanding.
pub proof fn lemma_waits_for_outstanding(pipeline: Pipeline)
    requires
        pipeline.wf(),
        pipeline.spec_action() is Receive,
    ensures
        pipeline.pending > 0,
{
}

/// While everything is drained, every response is waited for: the drain can only
/// end with the last of them.
pub proof fn lemma_full_drain(pipeline: Pipeline)
    requires
        pipeline.wf(),
        pipeline.phase == (Phase::Drain { remaining: 0, then_send: false }),
    ensures
        pipeline.spec_action() == (PipelineAction::Receive { wait: true }),
        drain_phase((pipeline.pending - 1) as u32, 0, false) is Done <==> pipeline.pending == 1,
{
}

/// Every request adds one response that is waited for, and every response that is received
/// takes one away; nothing else changes how many there are.
pub proof fn lemma_responses_are_counted(pipeline: Pipeline, next: Pipeline)
    requires
        pipeline.wf(),
    ensures
        call_ensures(Pipeline::sent, (pipeline,), next) && pipeline.phase is Send ==> next.pending
            == pipeline.pending + 1 && next.phase is Done,
        call_ensures(Pipeline::received, (pipeline,), next) && pipeline.phase is Drain
            ==> next.pending == pipeline.pending - 1,
        call_ensures(Pipeline::nothing_received, (pipeline,), next) ==> next.pending
            == pipeline.pending,
        call_ensures(Pipeline::not_sent, (pipeline,), next) ==> next.pending == pipeline.pending,
{
}

/// A drain that is given up without waiting leaves no more responses than it may.
pub proof fn lemma_drain_leaves_few(pipeline: Pipeline, remaining: u32, then_send: bool)
    requires
        pipeline.phase == (Phase::Drain { remaining, then_send }),
        call_ensures(
            Pipeline::action,
            (&pipeline,),
            PipelineAction::Receive { wait: false },
        ),
    ensures
        pipeline.pending <= remaining,
{
}

/// A drain that has more responses to receive than may be left waits for the next one.
pub proof fn lemma_drain_waits(pipeline: Pipeline, action: PipelineAction)
    requires
        pipeline.phase is Drain,
        call_ensures(Pipeline::action, (&pipeline,), action),
    ensures
        pipeline.phase matches Phase::Drain { remaining, .. } ==> (action matches PipelineAction::Receive {
            wait,
        } && (wait <==> pipeline.pending > remaining)),
{
}

/// A request that was begun is sent in the end: responses are received before it, but it is
/// never forgotten. If it could not be sent at once, at least one response is waited for.
pub proof fn lemma_request_is_not_forgotten(pipeline: Pipeline, next: Pipeline)
    requires
        pipeline.wf(),
        pipeline.phase is Send || (pipeline.phase matches Phase::Drain { then_send, .. }
            && then_send),
        call_ensures(Pipeline::received, (pipeline,), next) && pipeline.phase is Drain
            || call_ensures(Pipeline::nothing_received, (pipeline,), next) && pipeline.phase is Drain
            || call_ensures(Pipeline::not_sent, (pipeline,), next) && pipeline.pending > 0,
    ensures
        next.phase is Send || (next.phase matches Phase::Drain { then_send, .. } && then_send),
        pipeline.phase is Send ==> (next.phase matches Phase::Drain { remaining, .. } && remaining
            < next.pending && 2 * remaining <= next.pending <= 2 * remaining + 1),
{
}

/// A drain that no request waits for sends none.
pub proof fn lemma_drain_sends_nothing(pipeline: Pipeline, next: Pipeline)
    requires
        pipeline.wf(),
        pipeline.phase matches Phase::Drain { then_send, .. } && !then_send,
        call_ensures(Pipeline::received, (pipeline,), next) || call_ensures(
            Pipeline::nothing_received,
            (pipeline,),
            next,
        ),
    ensures
        next.phase is Done || (next.phase matches Phase::Drain { then_send, .. } && !then_send),
{
}

/// As long as fewer than eight responses are outstanding a request is sent at once; otherwise
/// at least half of them are received before it.
pub proof fn lemma_half_is_received_first(pending: u32, pipeline: Pipeline)
    requires
        call_ensures(Pipeline::begin_request, (pending,), pipeline),
    ensures
        pending < 8 <==> pipeline.phase is Send,
        pending >= 8 ==> (pipeline.phase matches Phase::Drain { remaining, then_send } && then_send
            && pending <= 2 * remaining + 1 && 2 * remaining <= pending),
{
}

/// A drain goes on, with the same goal, as long as responses are outstanding and come in, and
/// ends when there are none, or none to be had without waiting.
pub proof fn lemma_drain_goes_on(
    pending: u32,
    remaining: u32,
    begun: Pipeline,
    next: Pipeline,
)
    requires
        call_ensures(Pipeline::begin_drain, (pending, remaining), begun),
    ensures
        begun.pending == pending,
        pending == 0 <==> begun.phase is Done,
        pending > 0 ==> begun.phase == (Phase::Drain { remaining, then_send: false }),
        call_ensures(Pipeline::received, (begun,), next) && pending > 1 ==> next.phase
            == begun.phase,
        call_ensures(Pipeline::received, (begun,), next) && pending == 1 ==> next.phase is Done,
        call_ensures(Pipeline::nothing_received, (begun,), next) && pending > 0 ==> next.phase
            is Done,
{
}

} // verus!
