//! Errors that the user of the command line can act on.

use vstd::prelude::*;

verus! {

/// A usage or infrastructure error: what to tell the user.
#[derive(Debug, PartialEq, Eq)]
pub struct UsageError {
    pub message: String,
}

impl View for UsageError {
    type V = Seq<char>;

    open spec fn view(&self) -> Seq<char> {
        self.message@
    }
}

/// A message with the circumstances in which its cause came up.
pub open spec fn in_context(context: Seq<char>, cause: Seq<char>) -> Seq<char> {
    context + ": "@ + cause
}

impl UsageError {
    /// An error with a message.
    pub fn new(message: String) -> (r: UsageError)
        ensures
            r@ == message@,
    {
        UsageError { message }
    }

    /// An error with a fixed message.
    pub fn fixed(message: &str) -> (r: UsageError)
        ensures
            r@ == message@,
    {
        UsageError { message: message.to_owned() }
    }

    /// Puts the circumstances before a cause.
    pub fn caused(context: String, cause: &str) -> (r: UsageError)
        ensures
            r@ == in_context(context@, cause@),
    {
        let mut message = context;
        message.append(": ");
        message.append(cause);
        UsageError { message }
    }
}

}
