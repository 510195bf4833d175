//! The per-connection lifecycle: an explicit state machine from handshake
//! to teardown. The surrounding I/O layer runs the loop -- it performs each
//! returned action and feeds the next event back in -- while the decisions
//! themselves are made here.

use vstd::prelude::*;

verus! {

/// Where one connection stands in its life.
#[derive(Clone, Copy, PartialEq, Eq, Structural, Debug)]
pub enum HubState {
    /// Transport handshake under way; no session yet.
    Connecting,
    /// The registry granted a session id; the receive loop has not started.
    Joined { sid: u64 },
    /// Receiving frames and fanning them out.
    Relaying { sid: u64 },
    /// Tearing down: the leave and the close are being performed.
    Closing { sid: u64 },
    /// Terminal; resources released.
    Closed,
}

/// What the transport layer reports to the state machine.
#[derive(Clone, Copy, PartialEq, Eq, Structural, Debug)]
pub enum HubEvent {
    /// The registry's join returned this session id.
    JoinGranted { sid: u64 },
    /// The receive loop is about to pull its first frame.
    LoopStarted,
    /// One inbound frame arrived.
    FrameReceived,
    /// The peer closed the connection.
    PeerClosed,
    /// Receiving failed (transport fault).
    ReceiveFailed,
    /// Leave and close have both been performed.
    CleanupDone,
}

/// What the caller must perform after a step.
#[derive(Clone, Copy, PartialEq, Eq, Structural, Debug)]
pub enum HubAction {
    /// Nothing to perform.
    Quiet,
    /// Fan the received frame out from this session.
    Broadcast { sid: u64 },
    /// Invoke the registry's leave for this session and close its
    /// connection; emitted exactly once per connection.
    LeaveAndClose { sid: u64 },
}

/// The transition function: next state and required action for one event.
/// A receive error or peer close anywhere after the join leads to Closing
/// and emits the single LeaveAndClose; stray events change nothing.
pub open spec fn hub_step_model(s: HubState, e: HubEvent) -> (HubState, HubAction) {
    match (s, e) {
        (HubState::Connecting, HubEvent::JoinGranted { sid }) =>
            (HubState::Joined { sid }, HubAction::Quiet),
        (HubState::Joined { sid }, HubEvent::LoopStarted) =>
            (HubState::Relaying { sid }, HubAction::Quiet),
        (HubState::Joined { sid }, HubEvent::PeerClosed) =>
            (HubState::Closing { sid }, HubAction::LeaveAndClose { sid }),
        (HubState::Joined { sid }, HubEvent::ReceiveFailed) =>
            (HubState::Closing { sid }, HubAction::LeaveAndClose { sid }),
        (HubState::Relaying { sid }, HubEvent::FrameReceived) =>
            (HubState::Relaying { sid }, HubAction::Broadcast { sid }),
        (HubState::Relaying { sid }, HubEvent::PeerClosed) =>
            (HubState::Closing { sid }, HubAction::LeaveAndClose { sid }),
        (HubState::Relaying { sid }, HubEvent::ReceiveFailed) =>
            (HubState::Closing { sid }, HubAction::LeaveAndClose { sid }),
        (HubState::Closing { sid: _ }, HubEvent::CleanupDone) =>
            (HubState::Closed, HubAction::Quiet),
        _ => (s, HubAction::Quiet),
    }
}

/// Performs one transition of the connection state machine.
pub fn hub_step(s: HubState, e: HubEvent) -> (r: (HubState, HubAction))
    ensures
        r == hub_step_model(s, e),
{
    match (s, e) {
        (HubState::Connecting, HubEvent::JoinGranted { sid }) =>
            (HubState::Joined { sid }, HubAction::Quiet),
        (HubState::Joined { sid }, HubEvent::LoopStarted) =>
            (HubState::Relaying { sid }, HubAction::Quiet),
        (HubState::Joined { sid }, HubEvent::PeerClosed) =>
            (HubState::Closing { sid }, HubAction::LeaveAndClose { sid }),
        (HubState::Joined { sid }, HubEvent::ReceiveFailed) =>
            (HubState::Closing { sid }, HubAction::LeaveAndClose { sid }),
        (HubState::Relaying { sid }, HubEvent::FrameReceived) =>
            (HubState::Relaying { sid }, HubAction::Broadcast { sid }),
        (HubState::Relaying { sid }, HubEvent::PeerClosed) =>
            (HubState::Closing { sid }, HubAction::LeaveAndClose { sid }),
        (HubState::Relaying { sid }, HubEvent::ReceiveFailed) =>
            (HubState::Closing { sid }, HubAction::LeaveAndClose { sid }),
        (HubState::Closing { sid: _ }, HubEvent::CleanupDone) =>
            (HubState::Closed, HubAction::Quiet),
        _ => (s, HubAction::Quiet),
    }
}

/// The connection is past its working life.
pub open spec fn past_relaying(s: HubState) -> bool {
    s is Closing || s is Closed
}

/// How many LeaveAndClose actions a run of the machine emits.
pub open spec fn leave_count(s: HubState, events: Seq<HubEvent>) -> nat
    decreases events.len(),
{
    if events.len() == 0 {
        0
    } else {
        let r = hub_step_model(s, events[0]);
        (if r.1 is LeaveAndClose { 1nat } else { 0nat })
            + leave_count(r.0, events.drop_first())
    }
}

/// Teardown happens exactly once: whatever events the transport reports,
/// a connection's run emits at most one LeaveAndClose, and none at all
/// once it is already Closing or Closed.
pub proof fn lemma_leave_at_most_once(s: HubState, events: Seq<HubEvent>)
    ensures
        past_relaying(s) ==> leave_count(s, events) == 0,
        leave_count(s, events) <= 1,
    decreases events.len(),
{
    if events.len() == 0 {
    } else {
        let r = hub_step_model(s, events[0]);
        lemma_leave_at_most_once(r.0, events.drop_first());
        if past_relaying(s) {
            assert(past_relaying(r.0) && !(r.1 is LeaveAndClose));
        } else if r.1 is LeaveAndClose {
            assert(past_relaying(r.0));
        }
    }
}

} // verus!
