use my_mini_redis::handler::{is_finished, next_state, HandlerEvent, HandlerState};

#[test]
fn request_cycle_returns_to_await() {
    let s = next_state(HandlerState::AwaitFrame, HandlerEvent::FrameDecoded);
    assert_eq!(s, HandlerState::Dispatch);
    let s = next_state(s, HandlerEvent::ReplyProduced);
    assert_eq!(s, HandlerState::Reply);
    let s = next_state(s, HandlerEvent::WriteSucceeded);
    assert_eq!(s, HandlerState::AwaitFrame);
    assert!(!is_finished(s));
}

#[test]
fn end_of_stream_closes() {
    let s = next_state(HandlerState::AwaitFrame, HandlerEvent::EndOfStream);
    assert_eq!(s, HandlerState::Closed);
    assert!(is_finished(s));
    assert_eq!(next_state(s, HandlerEvent::FrameDecoded), HandlerState::Closed);
}

#[test]
fn errors_fail_the_connection() {
    assert_eq!(next_state(HandlerState::AwaitFrame, HandlerEvent::DecodeError), HandlerState::Failed);
    assert_eq!(next_state(HandlerState::Reply, HandlerEvent::WriteFailed), HandlerState::Failed);
    assert_eq!(next_state(HandlerState::Dispatch, HandlerEvent::CommandRejected), HandlerState::Failed);
    assert_eq!(next_state(HandlerState::Failed, HandlerEvent::WriteSucceeded), HandlerState::Failed);
    assert!(is_finished(HandlerState::Failed));
}
