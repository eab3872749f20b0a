//! What a provider's HTTP status code means for a request.

use vstd::prelude::*;

verus! {

/// The API a request went to.
#[derive(Debug, Clone, Copy, PartialEq, Eq, Structural)]
pub enum Api {
    Ollama,
    OpenAI,
    Gemini,
}

/// How a response with a given status is handled.
#[derive(Debug, Clone, Copy, PartialEq, Eq, Structural)]
pub enum StatusOutcome {
    /// Read the answer from the body.
    Success,
    /// The API key was refused.
    AuthenticationFailed,
    /// The request itself was refused; the body says why.
    RequestRejected,
    /// Any other failure; the body says why.
    Failed,
}

/// A 2xx status.
pub open spec fn is_success_status(status: u16) -> bool {
    200 <= status <= 299
}

/// What a response with `status` from `api` leads to: OpenAI reports a refused
/// key as 401, Gemini a refused request as 400 or 403; any other status
/// outside 2xx is a failure.
pub fn status_outcome(api: Api, status: u16) -> (r: StatusOutcome)
    ensures
        r == (match api {
            Api::OpenAI => if status == 401 {
                StatusOutcome::AuthenticationFailed
            } else if !is_success_status(status) {
                StatusOutcome::Failed
            } else {
                StatusOutcome::Success
            },
            Api::Gemini => if status == 400 || status == 403 {
                StatusOutcome::RequestRejected
            } else if !is_success_status(status) {
                StatusOutcome::Failed
            } else {
                StatusOutcome::Success
            },
            Api::Ollama => if !is_success_status(status) {
                StatusOutcome::Failed
            } else {
                StatusOutcome::Success
            },
        }),
{
    let success = 200 <= status && status <= 299;
    match api {
        Api::OpenAI => {
            if status == 401 {
                StatusOutcome::AuthenticationFailed
            } else if !success {
                StatusOutcome::Failed
            } else {
                StatusOutcome::Success
            }
        },
        Api::Gemini => {
            if status == 400 || status == 403 {
                StatusOutcome::RequestRejected
            } else if !success {
                StatusOutcome::Failed
            } else {
                StatusOutcome::Success
            }
        },
        Api::Ollama => {
            if !success {
                StatusOutcome::Failed
            } else {
                StatusOutcome::Success
            }
        },
    }
}

} // verus!
