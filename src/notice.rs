use vstd::prelude::*;

verus! {

/// The kind of an out-of-band notification pushed to one connection.
#[derive(Clone, Copy, Debug, PartialEq, Eq, Structural)]
pub enum PushEventType {
    AuthOk,
    AuthErr,
}

/// The wire text of a notification: a JSON object whose `id` is the reserved
/// control id -1 and whose `event_type` names the kind.
pub open spec fn notice_text(t: PushEventType) -> Seq<char> {
    match t {
        PushEventType::AuthOk => "{\"id\":-1,\"event_type\":\"auth_ok\"}"@,
        PushEventType::AuthErr => "{\"id\":-1,\"event_type\":\"auth_err\"}"@,
    }
}

impl PushEventType {
    /// The notification of this kind, ready to send.
    pub fn notice(&self) -> (r: String)
        ensures
            r@ == notice_text(*self),
    {
        match self {
            PushEventType::AuthOk => String::from_str("{\"id\":-1,\"event_type\":\"auth_ok\"}"),
            PushEventType::AuthErr => String::from_str("{\"id\":-1,\"event_type\":\"auth_err\"}"),
        }
    }
}

} // verus!
