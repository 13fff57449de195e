use gemini_juggler::requester::{
    contains_ignore_case, speaks_of_daily_quota, Event, Header, Requester, ResponseHead,
    BAD_KEY_BODY_LEN, TOO_MANY_REQUESTS,
};

fn header(name: &str, value: &str) -> Header {
    Header { name: name.to_string(), value: value.as_bytes().to_vec() }
}

fn classify(status: u16, body: &[u8]) -> Event {
    Requester::new().handle_status(status, vec![header("content-type", "application/json")], body.to_vec())
}

#[test]
fn status_200_is_success() {
    match classify(200, b"") {
        Event::Forward(head) => {
            assert_eq!(head.status, 200);
            assert_eq!(head.headers.len(), 1);
            assert_eq!(head.headers[0].name, "content-type");
            assert_eq!(head.headers[0].value, b"application/json");
        }
        _ => panic!("a 200 is forwarded"),
    }
}

#[test]
fn success_is_every_status_from_200_to_299() {
    assert!(matches!(classify(299, b"quota per day"), Event::Forward(_)));
    assert!(matches!(classify(204, b""), Event::Forward(_)));
    assert!(matches!(classify(199, b""), Event::Relay(_)));
    assert!(matches!(classify(300, b""), Event::Relay(_)));
}

#[test]
fn status_429_with_daily_limit_is_quota_exceeded() {
    assert!(matches!(
        classify(429, b"You exceeded your current quota: daily limit reached."),
        Event::Retry
    ));
}

#[test]
fn status_429_with_daily_quota_is_quota_exceeded() {
    assert!(matches!(classify(429, b"daily quota exceeded"), Event::Retry));
    assert!(matches!(classify(429, b"DAILY"), Event::Retry));
    assert!(matches!(classify(429, b"Quota exceeded for metric: requests per day"), Event::Retry));
    assert!(matches!(
        classify(429, b"quotaId: GenerateRequestsPerDayPerProjectPerModel"),
        Event::Retry
    ));
    assert!(matches!(classify(429, b"dail"), Event::Relay(_)));
    assert!(matches!(classify(429, b"da"), Event::Relay(_)));
}

#[test]
fn quota_word_is_found_in_any_letter_case() {
    assert!(matches!(classify(429, b"limit: 50 requests per DAY"), Event::Retry));
    assert!(matches!(classify(429, b"Day"), Event::Retry));
    assert!(matches!(classify(429, b"xxdAy"), Event::Retry));
    assert!(matches!(classify(429, b"Monday"), Event::Retry));
}

#[test]
fn status_429_with_sentinel_length_is_invalid_credential() {
    let body = vec![b'x'; BAD_KEY_BODY_LEN];
    assert_eq!(body.len(), 344);
    assert!(matches!(classify(429, &body), Event::BadKey));
}

#[test]
fn quota_word_wins_over_sentinel_length() {
    let mut body = vec![b'x'; BAD_KEY_BODY_LEN];
    body[341] = b'd';
    body[342] = b'a';
    body[343] = b'y';
    assert!(matches!(classify(429, &body), Event::Retry));
}

#[test]
fn status_429_with_unrelated_short_body_is_relayed() {
    match classify(429, b"slow down") {
        Event::Relay(response) => {
            assert_eq!(response.status, TOO_MANY_REQUESTS);
            assert_eq!(response.body, b"slow down");
            assert_eq!(response.headers.len(), 1);
        }
        _ => panic!("a burst limit goes to the client"),
    }
    assert!(matches!(classify(429, &vec![b'x'; 343]), Event::Relay(_)));
    assert!(matches!(classify(429, &vec![b'x'; 345]), Event::Relay(_)));
    assert!(matches!(classify(429, b""), Event::Relay(_)));
    assert!(matches!(classify(429, b"d a y"), Event::Relay(_)));
}

#[test]
fn status_500_with_any_body_is_relayed() {
    for body in [&b""[..], &b"daily limit"[..], &vec![b'x'; 344][..]] {
        match classify(500, body) {
            Event::Relay(response) => {
                assert_eq!(response.status, 500);
                assert_eq!(response.body, body);
            }
            _ => panic!("a 500 goes to the client"),
        }
    }
    assert!(matches!(classify(404, b"no such model"), Event::Relay(_)));
    assert!(matches!(classify(0, b""), Event::Relay(_)));
    assert!(matches!(classify(u16::MAX, b""), Event::Relay(_)));
}

#[test]
fn sentinel_length_can_be_injected() {
    let engine = Requester::with_bad_key_body_len(5);
    assert!(matches!(engine.handle_status(429, Vec::new(), b"12345".to_vec()), Event::BadKey));
    assert!(matches!(
        engine.handle_status(429, Vec::new(), vec![b'x'; 344]),
        Event::Relay(_)
    ));
    let engine = Requester::with_bad_key_body_len(0);
    assert!(matches!(engine.handle_status(429, Vec::new(), Vec::new()), Event::BadKey));
}

#[test]
fn body_is_read_unless_the_status_reports_success() {
    assert!(!Requester::reads_body(200));
    assert!(!Requester::reads_body(299));
    assert!(Requester::reads_body(199));
    assert!(Requester::reads_body(300));
    assert!(Requester::reads_body(429));
    assert!(Requester::reads_body(500));
}

#[test]
fn token_search_ignores_case_of_the_text_only() {
    assert!(contains_ignore_case(b"abcDAYdef", b"day"));
    assert!(contains_ignore_case(b"day", b"day"));
    assert!(contains_ignore_case(b"anything", b""));
    assert!(contains_ignore_case(b"", b""));
    assert!(!contains_ignore_case(b"da", b"day"));
    assert!(!contains_ignore_case(b"", b"day"));
    assert!(!contains_ignore_case(b"dady", b"day"));
    assert!(!contains_ignore_case(b"day", b"DAY"));
    assert!(contains_ignore_case(b"[`{@", b"[`{@"));
    assert!(!contains_ignore_case(b"\xc4\xe4", b"\xe4\xe4"));
}

#[test]
fn daily_quota_is_named_by_either_word() {
    assert!(speaks_of_daily_quota(b"per day"));
    assert!(speaks_of_daily_quota(b"daily"));
    assert!(speaks_of_daily_quota(b"yesterDAY"));
    assert!(!speaks_of_daily_quota(b"per minute"));
    assert!(!speaks_of_daily_quota(b""));
}

#[test]
fn native_request_carries_the_secret_in_the_query() {
    let engine = Requester::new();
    let single = engine.gemini_request("SECRET", "gemini-pro", false);
    assert_eq!(
        single.url,
        "https://generativelanguage.googleapis.com/v1beta/models/gemini-pro:generateContent?key=SECRET"
    );
    assert_eq!(single.authorization, None);
    assert!(!single.decompress);
    let stream = engine.gemini_request("SECRET", "gemini-pro", true);
    assert_eq!(
        stream.url,
        "https://generativelanguage.googleapis.com/v1beta/models/gemini-pro:streamGenerateContent?key=SECRET&alt=sse"
    );
    assert_eq!(stream.authorization, None);
}

#[test]
fn openai_request_carries_the_secret_as_bearer_token() {
    let request = Requester::new().openai_request("SECRET");
    assert_eq!(
        request.url,
        "https://generativelanguage.googleapis.com/v1beta/openai/chat/completions"
    );
    assert_eq!(request.authorization, Some("Bearer SECRET".to_string()));
    assert!(!request.decompress);
}

#[test]
fn failures_say_what_failed() {
    match Requester::send_failed("connection refused") {
        Event::Fail(text) => assert_eq!(text, "Error forwarding request: connection refused"),
        _ => panic!("a failed call is a failure"),
    }
    match Requester::read_failed("payload too large") {
        Event::Fail(text) => assert_eq!(text, "Error reading response: payload too large"),
        _ => panic!("an unreadable body is a failure"),
    }
}

#[test]
fn head_and_body_make_the_response_unchanged() {
    let head = ResponseHead { status: 200, headers: vec![header("content-type", "text/event-stream")] };
    let whole = head.complete(b"{\"candidates\":[]}".to_vec());
    assert_eq!(whole.status, 200);
    assert_eq!(whole.headers.len(), 1);
    assert_eq!(whole.headers[0].name, "content-type");
    assert_eq!(whole.headers[0].value, b"text/event-stream");
    assert_eq!(whole.body, b"{\"candidates\":[]}");
}
