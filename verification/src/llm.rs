//! Decisions of the vLLM chat client: what a reply yields, when to retry,
//! which model to use.
use vstd::prelude::*;
use crate::error::CoreError;
use crate::text::{chars_of, string_of, trim, trim_bounds};

verus! {

/// A single chat message with a role and content.
pub struct ChatMessage {
    pub role: &'static str,
    pub content: String,
}

/// The reason given when a reply carries no usable text.
pub open spec fn empty_reply_reason() -> Seq<char> {
    "empty or missing content in response"@
}

/// Whether `s` holds anything but whitespace.
pub fn is_blank(s: &str) -> (res: bool)
    ensures
        res == (trim(s@).len() == 0),
{
    let v = chars_of(s);
    let (a, b) = trim_bounds(&v, 0, v.len());
    proof {
        assert(v@.subrange(0, v@.len() as int) =~= s@);
    }
    a == b
}

/// The text of a chat reply: the first choice's `content` when it holds
/// anything but whitespace, otherwise a failed request.
pub fn reply_content(content: Option<String>) -> (res: Result<String, CoreError>)
    ensures
        match content {
            Some(c) if trim(c@).len() > 0 => res == Ok::<String, CoreError>(c),
            _ => res matches Err(CoreError::RequestFailed { reason }) && reason@
                == empty_reply_reason(),
        },
{
    match content {
        Some(c) => {
            if is_blank(c.as_str()) {
                Err(CoreError::RequestFailed { reason: string_of("empty or missing content in response") })
            } else {
                Ok(c)
            }
        },
        None => Err(CoreError::RequestFailed { reason: string_of("empty or missing content in response") }),
    }
}

/// What a chat-completions response body holds: `Err` with the JSON parser's
/// message when the body is not JSON; otherwise the string at
/// `choices[0].message.content`, if there is one.
pub uninterp spec fn chat_body_content(body: Seq<char>) -> Result<Option<Seq<char>>, Seq<char>>;

/// The view of a parsed body.
pub open spec fn parsed_view(r: Result<Option<String>, String>) -> Result<Option<Seq<char>>, Seq<char>> {
    match r {
        Ok(Some(c)) => Ok(Some(c@)),
        Ok(None) => Ok(None),
        Err(m) => Err(m@),
    }
}

/// Parses a chat-completions response body with `serde_json::from_str` into a
/// `Value`, then reads `choices[0].message.content` with `Value` indexing and
/// `as_str`.
/// Trusted: the result is what `chat_body_content` names for `body`.
#[verifier::external_body]
fn parse_chat_body(body: &str) -> (res: Result<Option<String>, String>)
    ensures
        parsed_view(res) == chat_body_content(body@),
{
    match serde_json::from_str::<serde_json::Value>(body) {
        Ok(v) => Ok(v["choices"][0]["message"]["content"].as_str().map(String::from)),
        Err(e) => Err(e.to_string()),
    }
}

/// The reason given when a successful response's body is not JSON (what
/// reqwest reports for a body it cannot decode).
pub open spec fn undecodable_body_reason() -> Seq<char> {
    "error decoding response body"@
}

/// What the body of a successful response yields: `Err(reason)` when it is
/// not JSON (the attempt failed and may be retried); otherwise the reply's
/// text, or the failed request `reply_content` reports for a missing or
/// blank one.
pub fn chat_reply(body: &str) -> (res: Result<Result<String, CoreError>, String>)
    ensures
        match chat_body_content(body@) {
            Err(_) => res matches Err(r) && r@ == undecodable_body_reason(),
            Ok(Some(t)) if trim(t).len() > 0 => res matches Ok(Ok(r)) && r@ == t,
            Ok(_) => res matches Ok(Err(CoreError::RequestFailed { reason })) && reason@
                == empty_reply_reason(),
        },
{
    match parse_chat_body(body) {
        Ok(content) => Ok(reply_content(content)),
        Err(_) => Err(string_of("error decoding response body")),
    }
}

/// The model named by `VLLM_MODEL`, when it is set to something other than
/// whitespace.
pub fn model_override(value: Option<String>) -> (res: Option<String>)
    ensures
        match value {
            Some(v) if trim(v@).len() > 0 => res == Some(v),
            _ => res is None,
        },
{
    match value {
        Some(v) => if is_blank(v.as_str()) {
            None
        } else {
            Some(v)
        },
        None => None,
    }
}

/// The first model the server advertises.
pub fn first_model(ids: Vec<String>) -> (res: Result<String, CoreError>)
    ensures
        ids@.len() > 0 ==> res == Ok::<String, CoreError>(ids@[0]),
        ids@.len() == 0 ==> res matches Err(CoreError::NoModelsAvailable),
{
    let mut ids = ids;
    if ids.len() == 0 {
        Err(CoreError::NoModelsAvailable)
    } else {
        Ok(ids.swap_remove(0))
    }
}

/// Progress through the attempts of one request.
#[derive(Debug, Clone, Copy, PartialEq, Eq, Structural)]
pub struct RetryState {
    pub attempt: u32,
    pub max_attempts: u32,
}

/// What to do after a failed attempt.
#[derive(Debug)]
pub enum RetryStep {
    /// Wait this many seconds, then make the next attempt.
    Retry { next: RetryState, wait_secs: u64 },
    /// Stop with this error.
    GiveUp(CoreError),
}

/// The attempts made for a request with `retries` retries: one more,
/// saturating at `u32::MAX`.
pub open spec fn attempts_for(retries: u32) -> int {
    if retries == u32::MAX {
        u32::MAX as int
    } else {
        retries + 1
    }
}

/// A failed attempt at `state` is followed by the attempt `next`.
pub open spec fn retries_into(state: RetryState, next: RetryState) -> bool {
    &&& state.attempt < state.max_attempts
    &&& next.attempt == state.attempt + 1
    &&& next.max_attempts == state.max_attempts
}

/// The first of `retries + 1` attempts (saturating).
pub fn start_attempts(retries: u32) -> (res: RetryState)
    ensures
        res.attempt == 1,
        res.max_attempts == attempts_for(retries),
{
    RetryState { attempt: 1, max_attempts: retries.saturating_add(1) }
}

/// After attempt `state.attempt` failed with `reason`: wait `attempt` seconds
/// and try again while attempts remain, otherwise give up with that reason.
pub fn after_failure(state: RetryState, reason: String) -> (res: RetryStep)
    requires
        1 <= state.attempt <= state.max_attempts,
    ensures
        match res {
            RetryStep::Retry { next, wait_secs } => {
                &&& retries_into(state, next)
                &&& wait_secs == state.attempt
            },
            RetryStep::GiveUp(e) => {
                &&& state.attempt == state.max_attempts
                &&& e matches CoreError::RequestFailed { reason: r }
                &&& r == reason
            },
        },
{
    if state.attempt < state.max_attempts {
        RetryStep::Retry {
            next: RetryState { attempt: state.attempt + 1, max_attempts: state.max_attempts },
            wait_secs: state.attempt as u64,
        }
    } else {
        RetryStep::GiveUp(CoreError::RequestFailed { reason })
    }
}

/// Laws of the retry policy. Follow a request that keeps failing from
/// `start_attempts(retries)` through the retries `after_failure` grants: the
/// n-th state is attempt n, no run holds more than `retries + 1` attempts
/// (saturating), and the run reaches the attempt at which `after_failure`
/// gives up exactly when it holds `retries + 1` of them.
pub proof fn law_retry_attempts(retries: u32, states: Seq<RetryState>)
    requires
        states.len() > 0,
        states[0].attempt == 1,
        states[0].max_attempts == attempts_for(retries),
        forall|i: int| 0 <= i < states.len() - 1 ==> retries_into(#[trigger] states[i], states[i + 1]),
    ensures
        forall|i: int| 0 <= i < states.len() ==> #[trigger] states[i].attempt == i + 1,
        forall|i: int| 0 <= i < states.len() ==> #[trigger] states[i].max_attempts == attempts_for(retries),
        states.len() <= attempts_for(retries),
        (states.last().attempt == states.last().max_attempts) == (states.len() == attempts_for(retries)),
    decreases states.len(),
{
    if states.len() > 1 {
        let init = states.drop_last();
        assert forall|i: int| 0 <= i < init.len() - 1 implies retries_into(#[trigger] init[i], init[i + 1]) by {
            assert(init[i] == states[i]);
            assert(init[i + 1] == states[i + 1]);
        }
        law_retry_attempts(retries, init);
        let k = states.len() - 2;
        assert(init[k] == states[k]);
        assert(retries_into(states[k], states[k + 1]));
        assert forall|i: int| 0 <= i < states.len() implies #[trigger] states[i].attempt == i + 1
            && states[i].max_attempts == attempts_for(retries) by {
            if i < init.len() {
                assert(init[i] == states[i]);
            }
        }
    }
}

} // verus!
