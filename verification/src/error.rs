//! The failures the registry and the subscription paths report.
use vstd::prelude::*;

verus! {

/// The ways a registry or subscription operation can fail.
#[derive(Debug)]
pub enum Error {
    /// A method with this name is already registered.
    MethodAlreadyRegistered(String),
    /// A subscription was registered with the same name for subscribing
    /// and unsubscribing.
    SubscriptionNameConflict(String),
    /// The parameters of a call do not fit what the method expects.
    InvalidParams,
    /// The outbound channel is closed: the connection has gone away.
    Internal,
}

impl Error {
    /// A short description of the failure, naming the method where
    /// one is involved.
    pub fn message(&self) -> (r: String)
        ensures
            self matches Error::MethodAlreadyRegistered(n) ==> r@ == ("method already registered: ")@
                + n@,
            self matches Error::SubscriptionNameConflict(n) ==> r@ == (
            "subscribe and unsubscribe names are equal: ")@ + n@,
            self is InvalidParams ==> r@ == ("invalid parameters")@,
            self is Internal ==> r@ == ("connection closed")@,
    {
        match self {
            Error::MethodAlreadyRegistered(n) => {
                let mut s = String::from_str("method already registered: ");
                s.append(n.as_str());
                s
            },
            Error::SubscriptionNameConflict(n) => {
                let mut s = String::from_str("subscribe and unsubscribe names are equal: ");
                s.append(n.as_str());
                s
            },
            Error::InvalidParams => String::from_str("invalid parameters"),
            Error::Internal => String::from_str("connection closed"),
        }
    }
}

} // verus!
