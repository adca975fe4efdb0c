use sift::error::SiftError;
use sift::http::{body_error, check_body, retry_after_secs, Attempts, HttpStep, MAX_BODY_BYTES};

/// Sends a request that is answered with the given statuses in turn: how many
/// of them it took, the waits between them, and how it ended.
fn send(
    verb: &str,
    url: &str,
    replies: &[(u16, Option<&str>)],
) -> (usize, Vec<u64>, Option<SiftError>) {
    let mut attempts = Attempts::new();
    let mut waits = Vec::new();
    for (i, (code, header)) in replies.iter().enumerate() {
        match attempts.on_status(verb, url, *code, *header) {
            HttpStep::Read => return (i + 1, waits, None),
            HttpStep::Again(w) => waits.push(w),
            HttpStep::Fail(e) => return (i + 1, waits, Some(e)),
        }
    }
    panic!("the request went on");
}

#[test]
fn get_200_returns_body_and_makes_one_request() {
    let (n, waits, end) = send("GET", "/ok", &[(200, None)]);
    assert_eq!(n, 1);
    assert!(waits.is_empty());
    assert!(end.is_none());
    assert_eq!(check_body(b"hello".to_vec()).unwrap(), b"hello");
}

#[test]
fn retries_each_documented_code_up_to_max() {
    for code in [429u16, 500, 502, 503, 504] {
        let (n, waits, end) =
            send("GET", "/x", &[(code, None), (code, None), (code, None), (code, None)]);
        assert_eq!(n, 4);
        assert_eq!(waits, vec![1, 2, 4]);
        match end {
            Some(SiftError::Network(m)) => assert_eq!(m, format!("GET /x -> {code}")),
            other => panic!("code={code}: {other:?}"),
        }
    }
}

#[test]
fn does_not_retry_on_403() {
    let (n, _, end) = send("GET", "/forbidden", &[(403, None)]);
    assert_eq!(n, 1);
    assert!(matches!(end, Some(SiftError::Network(_))));
}

#[test]
fn does_not_retry_on_404() {
    let (n, _, end) = send("GET", "/missing", &[(404, None)]);
    assert_eq!(n, 1);
    assert!(matches!(end, Some(SiftError::Network(_))));
}

#[test]
fn retry_after_header_is_honored() {
    let (n, waits, end) = send("GET", "/r", &[(429, Some("0")), (200, None)]);
    assert_eq!(n, 2);
    assert_eq!(waits, vec![0]);
    assert!(end.is_none());
}

#[test]
fn recovers_when_retry_eventually_succeeds() {
    let (n, _, end) = send("GET", "/s", &[(502, None), (502, None), (200, None)]);
    assert_eq!(n, 3);
    assert!(end.is_none());
}

#[test]
fn post_form_retries_on_502_then_succeeds() {
    let (n, _, end) = send("POST", "/r", &[(502, None), (502, None), (200, None)]);
    assert_eq!(n, 3);
    assert!(end.is_none());
}

#[test]
fn post_json_with_auth_retries_on_502_then_succeeds() {
    let (n, _, end) = send("POST", "/llm", &[(502, None), (502, None), (200, None)]);
    assert_eq!(n, 3);
    assert!(end.is_none());
}

#[test]
fn post_form_does_not_retry_on_404() {
    let (n, _, end) = send("POST", "/none", &[(404, None)]);
    assert_eq!(n, 1);
    assert!(matches!(end, Some(SiftError::Network(_))));
}

#[test]
fn the_header_replaces_the_own_wait() {
    let (_, waits, _) =
        send("GET", "/r", &[(503, Some(" 30 ")), (503, Some("soon")), (503, None), (200, None)]);
    assert_eq!(waits, vec![30, 2, 4]);
    assert_eq!(retry_after_secs(None), None);
    assert_eq!(retry_after_secs(Some("-1")), None);
    assert_eq!(retry_after_secs(Some("18446744073709551616")), None);
    assert_eq!(retry_after_secs(Some("18446744073709551615")), Some(u64::MAX));
}

#[test]
fn transport_errors_end_the_request() {
    match Attempts::new().on_transport_error("connection refused") {
        HttpStep::Fail(SiftError::Network(m)) => assert_eq!(m, "connection refused"),
        other => panic!("expected a failure, got {other:?}"),
    }
}

#[test]
fn bodies_have_a_largest_size() {
    assert!(check_body(vec![0; MAX_BODY_BYTES]).is_ok());
    match check_body(vec![0; MAX_BODY_BYTES + 1]).unwrap_err() {
        SiftError::Network(m) => assert_eq!(m, "response body exceeds 16777216 bytes"),
        other => panic!("expected Network, got {other:?}"),
    }
    assert!(matches!(body_error("eof"), SiftError::Network(m) if m == "body read: eof"));
}
