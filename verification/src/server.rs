//! The decision core of the socket echo loop: what to do with one received
//! message. The transport performs the chosen action and hands back the next
//! event.

use vstd::prelude::*;

use crate::encoding::push_str_part;

verus! {

/// One event received from a socket.
#[derive(Debug)]
pub enum WsEvent {
    /// A text message with its content.
    Text(String),
    /// An orderly close.
    Close,
    /// A transport error in place of a message.
    Failed,
    /// Any other message kind.
    Other,
}

/// What the transport should do next.
#[derive(Debug)]
pub enum WsAction {
    /// Send this text back.
    Reply(String),
    /// Stop the session.
    Stop,
    /// Read the next message.
    Ignore,
}

/// Decides one step of the echo session: text is echoed with the fixed
/// prefix; a close or a transport error ends the session; anything else is
/// skipped.
pub fn socket_step(event: WsEvent) -> (r: WsAction)
    ensures
        match event {
            WsEvent::Text(t) => r matches WsAction::Reply(s) && s@ == "Echo from backend: "@ + t@,
            WsEvent::Close => r is Stop,
            WsEvent::Failed => r is Stop,
            WsEvent::Other => r is Ignore,
        },
{
    match event {
        WsEvent::Text(t) => {
            let mut out = String::new();
            push_str_part(&mut out, "Echo from backend: ");
            push_str_part(&mut out, t.as_str());
            proof {
                assert(out@ =~= "Echo from backend: "@ + t@);
            }
            WsAction::Reply(out)
        },
        WsEvent::Close => WsAction::Stop,
        WsEvent::Failed => WsAction::Stop,
        WsEvent::Other => WsAction::Ignore,
    }
}

} // verus!
