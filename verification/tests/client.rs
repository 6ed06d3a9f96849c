use review_toolkit::config::{chat_completions_url, models_url_for, Config};
use review_toolkit::error::CoreError;
use review_toolkit::llm::{
    after_failure, chat_reply, first_model, model_override, reply_content, start_attempts, RetryStep,
};

#[test]
fn models_url_strips_v1_suffix() {
    let mut cfg = Config::from_values(None, None);
    cfg.vllm_base_url = "http://host:30000/v1".to_string();
    assert_eq!(cfg.models_url(), "http://host:30000/v1/models");
}

#[test]
fn config_defaults_and_values() {
    let cfg = Config::from_values(None, None);
    assert_eq!(cfg.vllm_base_url, "http://localhost:30000/v1");
    assert_eq!(cfg.batch_size, 4);
    assert_eq!(cfg.connect_timeout_secs, 5);
    let cfg = Config::from_values(Some("http://custom:9000/v1".into()), Some("8".into()));
    assert_eq!(cfg.vllm_base_url, "http://custom:9000/v1");
    assert_eq!(cfg.batch_size, 8);
    let cfg = Config::from_values(None, Some("eight".into()));
    assert_eq!(cfg.batch_size, 4);
}

#[test]
fn endpoint_urls_normalise_the_base() {
    assert_eq!(models_url_for("http://h:1/v1///"), "http://h:1/v1/models");
    assert_eq!(models_url_for("http://h:1"), "http://h:1/v1/models");
    assert_eq!(chat_completions_url("http://h:1/v1/"), "http://h:1/v1/chat/completions");
    assert_eq!(chat_completions_url("http://h:1"), "http://h:1/v1/chat/completions");
}

#[test]
fn reply_content_requires_text() {
    assert_eq!(reply_content(Some("ok".into())).unwrap(), "ok");
    for bad in [None, Some("  \n".to_string())] {
        match reply_content(bad) {
            Err(CoreError::RequestFailed { reason }) => {
                assert_eq!(reason, "empty or missing content in response")
            }
            _ => panic!("expected a failed request"),
        }
    }
}

#[test]
fn model_choice() {
    assert_eq!(model_override(Some("m".into())), Some("m".into()));
    assert_eq!(model_override(Some(" ".into())), None);
    assert_eq!(model_override(None), None);
    assert_eq!(first_model(vec!["a".into(), "b".into()]).unwrap(), "a");
    assert!(matches!(first_model(vec![]), Err(CoreError::NoModelsAvailable)));
    assert_eq!(CoreError::NoModelsAvailable.message(), "No models available on vLLM server");
    assert_eq!(
        CoreError::VllmUnreachable { url: "u".into() }.message(),
        "vLLM server unreachable at u"
    );
}

#[test]
fn retries_wait_longer_then_give_up() {
    let st = start_attempts(2);
    assert_eq!((st.attempt, st.max_attempts), (1, 3));
    let st = match after_failure(st, "e1".into()) {
        RetryStep::Retry { next, wait_secs } => {
            assert_eq!(wait_secs, 1);
            next
        }
        _ => panic!(),
    };
    let st = match after_failure(st, "e2".into()) {
        RetryStep::Retry { next, wait_secs } => {
            assert_eq!(wait_secs, 2);
            next
        }
        _ => panic!(),
    };
    match after_failure(st, "e3".into()) {
        RetryStep::GiveUp(CoreError::RequestFailed { reason }) => assert_eq!(reason, "e3"),
        _ => panic!(),
    }
    assert_eq!(start_attempts(u32::MAX).max_attempts, u32::MAX);
}

#[test]
fn a_failing_request_is_tried_retries_plus_one_times() {
    for retries in [0u32, 1, 4] {
        let mut st = start_attempts(retries);
        let mut attempts = 1;
        loop {
            match after_failure(st, "down".into()) {
                RetryStep::Retry { next, wait_secs } => {
                    assert_eq!(wait_secs, u64::from(st.attempt));
                    assert_eq!(next.attempt, st.attempt + 1);
                    st = next;
                    attempts += 1;
                }
                RetryStep::GiveUp(_) => break,
            }
        }
        assert_eq!(attempts, retries + 1);
    }
}

#[test]
fn chat_reply_reads_the_first_choice() {
    let body = r#"{"choices":[{"message":{"role":"assistant","content":"- CODE: ok"}},{"message":{"content":"other"}}]}"#;
    assert_eq!(chat_reply(body).unwrap().unwrap(), "- CODE: ok");
    match chat_reply(r#"{"choices":[{"message":{"content":"   "}}]}"#) {
        Ok(Err(CoreError::RequestFailed { reason })) => {
            assert_eq!(reason, "empty or missing content in response")
        }
        _ => panic!("a blank reply is a failed request"),
    }
    assert!(matches!(chat_reply(r#"{"choices":[]}"#), Ok(Err(CoreError::RequestFailed { .. }))));
    assert_eq!(chat_reply("<html>bad gateway</html>").unwrap_err(), "error decoding response body");
}
