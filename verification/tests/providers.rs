use grammar_check::providers::status::{status_outcome, Api, StatusOutcome};
use grammar_check::providers::prompts::{format_user_message, GRAMMAR_CHECK_SYSTEM_PROMPT};
use grammar_check::providers::retry::{
    after_failure, backoff_ms, contains, is_retryable, RetryStep, MAX_ATTEMPTS,
};

#[test]
fn user_message_wraps_text() {
    assert_eq!(
        format_user_message("He dont like it"),
        "Check the following text for grammar and style issues:\n\nHe dont like it"
    );
    assert!(GRAMMAR_CHECK_SYSTEM_PROMPT.contains("UTF-16"));
}

#[test]
fn substring_search() {
    assert!(contains("HTTP 503 Service Unavailable", "503"));
    assert!(contains("abc", ""));
    assert!(contains("abc", "abc"));
    assert!(!contains("ab", "abc"));
    assert!(!contains("a5b03", "503"));
}

#[test]
fn transient_failures_are_retryable() {
    assert!(is_retryable("OpenAI returned HTTP 429 Too Many Requests: slow down"));
    assert!(is_retryable("Gemini returned HTTP 502 Bad Gateway"));
    assert!(is_retryable("HTTP 503"));
    assert!(is_retryable("operation timeout"));
    assert!(!is_retryable("OpenAI authentication failed"));
    assert!(!is_retryable("Gemini request failed (HTTP 400 Bad Request)"));
    assert!(!is_retryable("Timeout"));
}

#[test]
fn backoff_doubles_from_one_second() {
    assert_eq!(backoff_ms(1), 1050);
    assert_eq!(backoff_ms(2), 2050);
    assert_eq!(backoff_ms(3), 4050);
    assert_eq!(backoff_ms(11), 1_024_050);
}

#[test]
fn retry_decisions() {
    assert_eq!(MAX_ATTEMPTS, 4);
    assert_eq!(after_failure(0, "HTTP 503"), RetryStep::RetryAfter(1050));
    assert_eq!(after_failure(1, "request timeout"), RetryStep::RetryAfter(2050));
    assert_eq!(after_failure(2, "HTTP 429"), RetryStep::RetryAfter(4050));
    assert_eq!(after_failure(3, "HTTP 429"), RetryStep::Exhausted);
    assert_eq!(after_failure(0, "HTTP 401 Unauthorized"), RetryStep::GiveUp);
    assert_eq!(after_failure(2, "bad request"), RetryStep::GiveUp);
}

#[test]
fn http_status_outcomes() {
    assert_eq!(status_outcome(Api::OpenAI, 200), StatusOutcome::Success);
    assert_eq!(status_outcome(Api::OpenAI, 401), StatusOutcome::AuthenticationFailed);
    assert_eq!(status_outcome(Api::OpenAI, 403), StatusOutcome::Failed);
    assert_eq!(status_outcome(Api::Gemini, 400), StatusOutcome::RequestRejected);
    assert_eq!(status_outcome(Api::Gemini, 403), StatusOutcome::RequestRejected);
    assert_eq!(status_outcome(Api::Gemini, 401), StatusOutcome::Failed);
    assert_eq!(status_outcome(Api::Gemini, 204), StatusOutcome::Success);
    assert_eq!(status_outcome(Api::Ollama, 299), StatusOutcome::Success);
    assert_eq!(status_outcome(Api::Ollama, 300), StatusOutcome::Failed);
    assert_eq!(status_outcome(Api::Ollama, 199), StatusOutcome::Failed);
}
