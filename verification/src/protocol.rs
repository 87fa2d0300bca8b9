use vstd::prelude::*;

use crate::error::{fails_with, AppError, ErrorKind, WireError};
use crate::model::{Dependency, Event, Proposal, Settings, Task};

verus! {

pub const PROTOCOL_VERSION: u32 = 1;

/// The largest request, in bytes, that the adapter reads.
pub const MAX_INPUT_BYTES: usize = 4194304;

/// Refuses an input longer than `MAX_INPUT_BYTES` before it is parsed.
pub fn check_input_size(len: usize) -> (r: Result<(), AppError>)
    ensures
        len <= MAX_INPUT_BYTES ==> r is Ok,
        len > MAX_INPUT_BYTES ==> fails_with(
            r,
            ErrorKind::Protocol,
            "input_too_large"@,
            ""@,
            "request exceeds the maximum input size"@,
        ),
{
    if len > MAX_INPUT_BYTES {
        Err(AppError::protocol("input_too_large", "", "request exceeds the maximum input size"))
    } else {
        Ok(())
    }
}

/// One planning request.
#[derive(Debug)]
pub struct Request {
    pub protocol_version: u32,
    pub request_id: String,
    pub base_input_revision: u64,
    pub now: String,
    pub settings: Settings,
    pub events: Vec<Event>,
    pub tasks: Vec<Task>,
    pub dependencies: Vec<Dependency>,
}

/// The one answer to a request.
#[derive(Debug)]
pub struct Response {
    pub protocol_version: u32,
    pub request_id: String,
    pub ok: bool,
    pub proposal: Option<Proposal>,
    pub error: Option<WireError>,
}

impl Response {
    pub fn success(request: &Request, proposal: Proposal) -> (r: Response)
        ensures
            r.protocol_version == PROTOCOL_VERSION,
            r.request_id@ == request.request_id@,
            r.ok,
            r.proposal == Some(proposal),
            r.error is None,
    {
        Response {
            protocol_version: PROTOCOL_VERSION,
            request_id: request.request_id.clone(),
            ok: true,
            proposal: Some(proposal),
            error: None,
        }
    }

    pub fn failure(request_id: String, error: WireError) -> (r: Response)
        ensures
            r.protocol_version == PROTOCOL_VERSION,
            r.request_id == request_id,
            !r.ok,
            r.proposal is None,
            r.error == Some(error),
    {
        Response {
            protocol_version: PROTOCOL_VERSION,
            request_id: request_id,
            ok: false,
            proposal: None,
            error: Some(error),
        }
    }
}

} // verus!
