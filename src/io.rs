use vstd::prelude::*;
use vstd::string::StringExecFns;

verus! {

/// A byte source. `history()` is every byte that `read` has handed out so far;
/// an impl that keeps the default models no history, and its `read` then cannot
/// meet the contract below in verified code.
pub trait Input {
    type ErrorType;

    closed spec fn history(&self) -> Seq<u8> {
        Seq::empty()
    }

    /// The error of the last failed `read`, if one failed.
    closed spec fn last_failure(&self) -> Option<Self::ErrorType> {
        None
    }

    /// Pulls one byte; on failure nothing counts as read.
    fn read(&mut self) -> (r: Result<u8, Self::ErrorType>)
        ensures
            r is Ok ==> final(self).history() == old(self).history().push(r->Ok_0),
            r is Err ==> final(self).history() == old(self).history(),
            r is Err ==> final(self).last_failure() == Some(r->Err_0),
    ;
}

/// A byte sink. `written()` is every byte pushed to it so far; as for
/// `Input`, the default models nothing.
pub trait Output {
    closed spec fn written(&self) -> Seq<u8> {
        Seq::empty()
    }

    fn write(&mut self, byte: u8)
        ensures
            final(self).written() == old(self).written().push(byte),
    ;
}

/// Why a standard-input source could not give a byte.
#[derive(Debug, Clone, Copy, PartialEq, Eq, Structural)]
pub enum StdinError {
    NoMoreInput,
}

impl StdinError {
    /// The message that describes this error.
    pub fn message(&self) -> (r: String)
        ensures
            r@ == "No more input"@,
    {
        String::from_str("No more input")
    }
}

} // verus!
