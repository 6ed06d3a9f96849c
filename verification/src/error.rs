//! Errors of the vLLM client.
use vstd::prelude::*;
use crate::text::{push_str, string_of};

verus! {

/// What went wrong while talking to the vLLM server.
#[derive(Debug)]
pub enum CoreError {
    VllmUnreachable { url: String },
    NoModelsAvailable,
    Http { reason: String },
    Json { reason: String },
    RequestFailed { reason: String },
}

impl CoreError {
    /// The text reported for this error.
    pub open spec fn text(self) -> Seq<char> {
        match self {
            CoreError::VllmUnreachable { url } => "vLLM server unreachable at "@ + url@,
            CoreError::NoModelsAvailable => "No models available on vLLM server"@,
            CoreError::Http { reason } => "HTTP error: "@ + reason@,
            CoreError::Json { reason } => "JSON error: "@ + reason@,
            CoreError::RequestFailed { reason } => "vLLM request failed: "@ + reason@,
        }
    }

    /// The text reported for this error.
    pub fn message(&self) -> (res: String)
        ensures
            res@ == self.text(),
    {
        match self {
            CoreError::VllmUnreachable { url } => {
                let mut s = string_of("vLLM server unreachable at ");
                push_str(&mut s, url.as_str());
                s
            },
            CoreError::NoModelsAvailable => string_of("No models available on vLLM server"),
            CoreError::Http { reason } => {
                let mut s = string_of("HTTP error: ");
                push_str(&mut s, reason.as_str());
                s
            },
            CoreError::Json { reason } => {
                let mut s = string_of("JSON error: ");
                push_str(&mut s, reason.as_str());
                s
            },
            CoreError::RequestFailed { reason } => {
                let mut s = string_of("vLLM request failed: ");
                push_str(&mut s, reason.as_str());
                s
            },
        }
    }
}

} // verus!
