use vstd::prelude::*;

verus! {

/// Where the handler of one connection stands.
#[derive(Debug, Clone, Copy, PartialEq, Eq, Structural)]
pub enum HandlerState {
    AwaitFrame,
    Dispatch,
    Reply,
    Closed,
    Failed,
}

/// What happened since the handler last moved.
#[derive(Debug, Clone, Copy, PartialEq, Eq, Structural)]
pub enum HandlerEvent {
    FrameDecoded,
    EndOfStream,
    DecodeError,
    CommandRejected,
    ReplyProduced,
    WriteSucceeded,
    WriteFailed,
}

pub open spec fn is_terminal(s: HandlerState) -> bool {
    s == HandlerState::Closed || s == HandlerState::Failed
}

/// The handler's transitions. A terminal state stays as it is; an event that
/// the state does not expect ends the connection as failed.
pub open spec fn spec_next_state(s: HandlerState, e: HandlerEvent) -> HandlerState {
    match (s, e) {
        (HandlerState::Closed, _) => HandlerState::Closed,
        (HandlerState::Failed, _) => HandlerState::Failed,
        (HandlerState::AwaitFrame, HandlerEvent::FrameDecoded) => HandlerState::Dispatch,
        (HandlerState::AwaitFrame, HandlerEvent::EndOfStream) => HandlerState::Closed,
        (HandlerState::Dispatch, HandlerEvent::ReplyProduced) => HandlerState::Reply,
        (HandlerState::Reply, HandlerEvent::WriteSucceeded) => HandlerState::AwaitFrame,
        _ => HandlerState::Failed,
    }
}

/// Moves the handler of one connection on by one event.
pub fn next_state(s: HandlerState, e: HandlerEvent) -> (r: HandlerState)
    ensures
        r == spec_next_state(s, e),
        is_terminal(s) ==> r == s,
{
    match (s, e) {
        (HandlerState::Closed, _) => HandlerState::Closed,
        (HandlerState::Failed, _) => HandlerState::Failed,
        (HandlerState::AwaitFrame, HandlerEvent::FrameDecoded) => HandlerState::Dispatch,
        (HandlerState::AwaitFrame, HandlerEvent::EndOfStream) => HandlerState::Closed,
        (HandlerState::Dispatch, HandlerEvent::ReplyProduced) => HandlerState::Reply,
        (HandlerState::Reply, HandlerEvent::WriteSucceeded) => HandlerState::AwaitFrame,
        _ => HandlerState::Failed,
    }
}

/// Whether the handler has stopped for good.
pub fn is_finished(s: HandlerState) -> (r: bool)
    ensures
        r == is_terminal(s),
{
    match s {
        HandlerState::Closed | HandlerState::Failed => true,
        _ => false,
    }
}

} // verus!
