//! The outbound path toward one connection: an unbounded channel of
//! frames, and the handle a subscription handler pushes through.
use vstd::prelude::*;
use crate::error::Error;
use crate::json::JsonValue;
use crate::wire::notification_frame;

verus! {

/// Declares futures_channel's unbounded sender, so that signatures
/// and fields can carry it; its values are opaque to the verifier.
#[verifier::external_type_specification]
#[verifier::external_body]
#[verifier::reject_recursive_types(T)]
pub struct ExUnboundedSender<T>(futures_channel::mpsc::UnboundedSender<T>);

/// Declares futures_channel's unbounded receiver, the reading half of
/// the same channel.
#[verifier::external_type_specification]
#[verifier::external_body]
#[verifier::reject_recursive_types(T)]
pub struct ExUnboundedReceiver<T>(futures_channel::mpsc::UnboundedReceiver<T>);

/// The outbound channel toward one connection: handlers push frames
/// in, the connection's writer drains them.
pub type MethodSink = futures_channel::mpsc::UnboundedSender<String>;

/// The reading half of a connection's outbound channel.
pub type MethodStream = futures_channel::mpsc::UnboundedReceiver<String>;

/// Relies on futures_channel::mpsc::unbounded: a fresh channel whose
/// sender feeds exactly the returned receiver.
#[verifier::external_body]
pub fn new_method_sink() -> (MethodSink, MethodStream) {
    futures_channel::mpsc::unbounded()
}

/// Relies on UnboundedSender::clone: the clone feeds the same
/// receiver as the original.
#[verifier::external_body]
pub fn clone_sink(s: &MethodSink) -> MethodSink {
    s.clone()
}

/// Relies on UnboundedSender::unbounded_send: the message is queued
/// for the receiver and the call returns `Ok`, unless the receiver is
/// gone, which returns `Err`.
#[verifier::external_body]
pub fn sink_send(s: &MethodSink, msg: String) -> (r: Result<(), Error>)
    ensures
        r matches Err(e) ==> e is Internal,
{
    match s.unbounded_send(msg) {
        Ok(()) => Ok(()),
        Err(_) => Err(Error::Internal),
    }
}

/// Relies on UnboundedReceiver::try_recv: the next queued message, in
/// the order the senders queued them, or nothing when the channel is
/// empty or closed.
#[verifier::external_body]
pub fn sink_try_next(rx: &mut MethodStream) -> Option<String> {
    match rx.try_recv() {
        Ok(m) => Some(m),
        Err(_) => None,
    }
}

/// The handle a subscription handler keeps for pushing notifications
/// to its subscriber.
pub struct SubscriptionSink {
    pub(crate) inner: MethodSink,
    pub(crate) method: String,
    pub(crate) sub_id: u64,
}

impl SubscriptionSink {
    /// A sink bound to a subscribe method and a masked subscription
    /// identifier.
    pub(crate) fn bind(inner: MethodSink, method: String, sub_id: u64) -> (r: SubscriptionSink)
        requires
            sub_id < 0x20000000000000u64,
        ensures
            r.wf(),
            r.spec_method() == method@,
            r.spec_sub_id() == sub_id,
    {
        SubscriptionSink { inner, method, sub_id }
    }

    /// The sink frames values for this subscription identifier.
    pub closed spec fn wf(&self) -> bool {
        self.sub_id < 0x20000000000000u64
    }

    /// The subscribe method name this sink notifies under.
    pub closed spec fn spec_method(&self) -> Seq<char> {
        self.method@
    }

    /// The subscription identifier, as a specification value.
    pub closed spec fn spec_sub_id(&self) -> u64 {
        self.sub_id
    }

    /// Law: a well-formed sink carries an identifier that fits in 53
    /// bits, so every notification it frames carries one too.
    pub proof fn lemma_sub_id_bound(&self)
        requires
            self.wf(),
        ensures
            self.spec_sub_id() < 0x20000000000000u64,
    {
    }

    /// The subscribe method name this sink notifies under.
    pub fn method_name(&self) -> (r: &str)
        ensures
            r@ == self.spec_method(),
    {
        self.method.as_str()
    }

    /// The subscription identifier this sink notifies under.
    pub fn subscription_id(&self) -> (r: u64)
        ensures
            r == self.spec_sub_id(),
    {
        self.sub_id
    }

    /// Frame `result` as a subscription notification and queue it on
    /// the connection's outbound channel. Fails only when the
    /// connection has gone away.
    pub fn send(&self, result: &JsonValue) -> (r: Result<(), Error>)
        requires
            self.wf(),
        ensures
            r matches Err(e) ==> e is Internal,
    {
        let value = crate::json::clone_value(result);
        let frame = notification_frame(self.method.as_str(), self.sub_id, value);
        sink_send(&self.inner, frame)
    }
}

} // verus!
