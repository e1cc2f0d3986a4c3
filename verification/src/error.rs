//! The failures that the fetch path reports, and the redirect that one of
//! them may carry.

use crate::text::push_decimal;
#[allow(unused_imports)]
use crate::text::decimal;
use vstd::prelude::*;

verus! {

/// What kind of failure ended a request; callers branch on it.
#[derive(Clone, Copy, Debug, PartialEq, Eq, Structural)]
pub enum ErrorKind {
    /// The user stopped the transfer.
    Interrupted,
    /// The response is malformed or not what was asked for.
    InvalidData,
    /// The request itself cannot be made.
    InvalidInput,
    /// The connection closed before the response was complete.
    UnexpectedEof,
    /// The server asks to be left alone for a while.
    WouldBlock,
    /// The object is elsewhere.
    NotConnected,
    /// Nothing arrived in time.
    TimedOut,
    /// The operating system refused access to a file.
    PermissionDenied,
    Other,
}

/// A 3xx answer, with the destination intact.
///
/// Following the hop belongs to the caller: it owns the URL the request was
/// built from and the budget for how many hops are too many.
#[derive(Clone, Debug)]
pub struct Redirect {
    pub status: u16,
    /// `Location`, verbatim: possibly relative to the URL that was asked for,
    /// so callers resolve it against that.
    pub location: String,
}

/// What a failure carries besides its kind.
#[derive(Clone, Debug)]
pub enum Payload {
    Message(String),
    /// The destination travels as data, never inside the message text.
    Redirect(Redirect),
}

/// A failed request.
#[derive(Clone, Debug)]
pub struct FetchError {
    pub kind: ErrorKind,
    pub payload: Payload,
}

impl Redirect {
    /// How a redirect reads: its status and its destination.
    pub open spec fn text(self) -> Seq<char> {
        "redirect "@ + decimal(self.status as nat) + " to "@ + self.location@
    }

    /// The redirect carried by this error, if it carries one.
    pub fn of(e: &FetchError) -> (r: Option<&Redirect>)
        ensures
            match (r, e.payload) {
                (Some(x), Payload::Redirect(y)) => *x == y,
                (None, Payload::Message(_)) => true,
                _ => false,
            },
    {
        match &e.payload {
            Payload::Redirect(r) => Some(r),
            Payload::Message(_) => None,
        }
    }

    /// The message for the user.
    pub fn message(&self) -> (r: String)
        ensures
            r@ == self.text(),
    {
        let mut out = String::from_str("redirect ");
        push_decimal(&mut out, self.status as u64);
        out.append(" to ");
        out.append(self.location.as_str());
        out
    }
}

impl FetchError {
    /// The text that the user sees.
    pub open spec fn text(self) -> Seq<char> {
        match self.payload {
            Payload::Message(m) => m@,
            Payload::Redirect(r) => r.text(),
        }
    }

    /// Whether this is a plain failure of the given kind and text.
    pub open spec fn says(self, kind: ErrorKind, text: Seq<char>) -> bool {
        self.kind == kind && self.payload is Message && self.text() == text
    }

    /// Whether this is the redirect from `status` to `location`.
    pub open spec fn points_to(self, status: u16, location: Seq<char>) -> bool {
        &&& self.kind == ErrorKind::Other
        &&& self.payload matches Payload::Redirect(r) && r.status == status && r.location@
            == location
    }

    /// A failure with a message.
    pub fn new(kind: ErrorKind, message: String) -> (r: FetchError)
        ensures
            r.says(kind, message@),
    {
        FetchError { kind, payload: Payload::Message(message) }
    }

    /// A failure with a fixed message.
    pub fn plain(kind: ErrorKind, message: &str) -> (r: FetchError)
        ensures
            r.says(kind, message@),
    {
        FetchError { kind, payload: Payload::Message(String::from_str(message)) }
    }

    /// A redirect to follow.
    pub fn redirect(status: u16, location: String) -> (r: FetchError)
        ensures
            r.points_to(status, location@),
    {
        FetchError { kind: ErrorKind::Other, payload: Payload::Redirect(Redirect { status, location }) }
    }

    /// The message for the user.
    pub fn message(&self) -> (r: String)
        ensures
            r@ == self.text(),
    {
        match &self.payload {
            Payload::Message(m) => m.clone(),
            Payload::Redirect(r) => r.message(),
        }
    }
}

/// A plain failure has its kind and its text, and carries no redirect.
pub proof fn law_a_failure_says_what_it_says(e: FetchError, kind: ErrorKind, text: Seq<char>)
    ensures
        e.says(kind, text) <==> e.kind == kind && (e.payload matches Payload::Message(m) && m@
            == text),
        e.payload matches Payload::Message(m) ==> e.text() == m@,
{
}

/// A redirect carries its status and its destination as they are, and reads as
/// both.
pub proof fn law_a_redirect_carries_its_destination(e: FetchError, status: u16, location: Seq<char>)
    ensures
        e.points_to(status, location) <==> e.kind == ErrorKind::Other && (e.payload
            matches Payload::Redirect(r) && r.status == status && r.location@ == location),
        e.points_to(status, location) ==> e.text() == "redirect "@ + decimal(status as nat)
            + " to "@ + location,
{
}

} // verus!
