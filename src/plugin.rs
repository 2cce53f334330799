//! The plugin's request and response types and its echo call.
use vstd::prelude::*;

verus! {

/// A ping carrying an optional value.
#[derive(Debug)]
pub struct PingRequest {
    pub value: Option<String>,
}

/// The answer to a ping.
#[derive(Debug)]
pub struct PingResponse {
    pub value: Option<String>,
}

/// A storage permission the plugin can ask for.
#[derive(Clone, Copy, Debug, PartialEq, Eq, Structural)]
pub enum PermissionType {
    WriteExternalStorage,
    ReadExternalStorage,
}

/// Answers a ping with the value it carried.
pub fn ping(payload: PingRequest) -> (r: PingResponse)
    ensures
        r.value == payload.value,
{
    PingResponse { value: payload.value }
}

} // verus!
