//! What a request is answered with when it fails.

use vstd::prelude::*;

verus! {

/// The code of a request with missing or invalid parameters.
pub const INVALID_PARAMS: i32 = -32602;

/// The code of a request that cannot be carried out.
pub const SERVER_ERROR: i32 = -32000;

/// An error code and a message for the user.
#[derive(Debug)]
pub struct Fault {
    pub code: i32,
    pub message: String,
}

/// A fault as a value.
pub struct FaultModel {
    pub code: i32,
    pub message: Seq<char>,
}

impl View for Fault {
    type V = FaultModel;

    open spec fn view(&self) -> FaultModel {
        FaultModel { code: self.code, message: self.message@ }
    }
}

/// A request with missing or invalid parameters.
pub open spec fn invalid(message: Seq<char>) -> FaultModel {
    FaultModel { code: INVALID_PARAMS, message }
}

/// A request that cannot be carried out.
pub open spec fn failed(message: Seq<char>) -> FaultModel {
    FaultModel { code: SERVER_ERROR, message }
}

impl Fault {
    /// A request with missing or invalid parameters.
    pub fn invalid(message: &str) -> (f: Fault)
        ensures
            f@ == invalid(message@),
    {
        Fault { code: INVALID_PARAMS, message: message.to_owned() }
    }

    /// A request that cannot be carried out.
    pub fn failed(message: &str) -> (f: Fault)
        ensures
            f@ == failed(message@),
    {
        Fault { code: SERVER_ERROR, message: message.to_owned() }
    }
}

} // verus!
