use gemini_juggler::juggler::{Key, KeyJuggler};
use gemini_juggler::relay::{begin_at, decide_at, Delivery, Failure, State};
use gemini_juggler::requester::{Event, Header, Requester};

const NOW: i64 = 1_700_000_000_000;
const HOUR: i64 = 3_600_000;

fn key(secret: &str, ratelimited_at: Option<i64>, num_requests: u64) -> Key {
    Key { key: secret.to_string(), ratelimited_at, num_requests }
}

/// What the upstream answers to a call with a secret: status and body.
type Upstream<'a> = &'a dyn Fn(&str) -> Option<(u16, Vec<u8>)>;

/// Runs one request to its end and returns the final state with the secrets
/// that were called, in order.
fn serve(pool: &mut KeyJuggler, upstream: Upstream, streaming: bool) -> (State, Vec<String>) {
    let engine = Requester::new();
    let mut calls = Vec::new();
    let mut state = begin_at(pool, NOW);
    loop {
        let secret = match state {
            State::Calling(secret) => secret,
            ended => return (ended, calls),
        };
        calls.push(secret.clone());
        let event = match upstream(&secret) {
            None => Requester::send_failed("connection refused"),
            Some((status, body)) => {
                let headers = vec![Header { name: "x-upstream".to_string(), value: b"1".to_vec() }];
                engine.handle_status(status, headers, body)
            }
        };
        state = decide_at(pool, &secret, event, streaming, NOW);
    }
}

#[test]
fn blocked_credential_is_passed_over_and_success_is_delivered() {
    let mut pool = KeyJuggler::from_keys(vec![
        key("AAAAAA-0001", Some(NOW - 22 * HOUR), 0),
        key("BBBBBB-0002", None, 0),
    ]);
    assert_eq!(pool.get_status_at(NOW)[0].seconds_remaining, Some(7_200));
    let (state, calls) = serve(&mut pool, &|_| Some((200, b"{\"ok\":true}".to_vec())), false);
    assert_eq!(calls, vec!["BBBBBB-0002"]);
    match state {
        State::Done(Delivery::Buffer(head)) => {
            assert_eq!(head.status, 200);
            assert_eq!(head.headers[0].name, "x-upstream");
            let whole = head.complete(b"{\"ok\":true}".to_vec());
            assert_eq!(whole.status, 200);
            assert_eq!(whole.body, b"{\"ok\":true}");
        }
        _ => panic!("the upstream's answer is delivered whole"),
    }
    let status = pool.get_status_at(NOW);
    assert_eq!(status[1].num_requests, 1);
    assert!(status[0].is_ratelimited);
}

#[test]
fn success_is_streamed_when_the_client_asked_for_a_stream() {
    let mut pool = KeyJuggler::in_order(vec!["AAAAAA-0001".to_string()]);
    let (state, calls) = serve(&mut pool, &|_| Some((200, Vec::new())), true);
    assert_eq!(calls.len(), 1);
    assert!(matches!(state, State::Done(Delivery::Stream(_))));
}

#[test]
fn daily_quota_on_the_only_credential_fails_after_one_call() {
    let mut pool = KeyJuggler::in_order(vec!["AAAAAA-0001".to_string()]);
    let (state, calls) = serve(&mut pool, &|_| Some((429, b"daily quota exceeded".to_vec())), false);
    assert_eq!(calls, vec!["AAAAAA-0001"]);
    match state {
        State::Failed(failure) => {
            assert!(matches!(failure, Failure::PoolExhausted));
            assert_eq!(failure.status(), 429);
            assert_eq!(failure.message(), "All API keys are ratelimited");
        }
        _ => panic!("the pool is exhausted"),
    }
    let status = pool.get_status_at(NOW);
    assert!(status[0].is_ratelimited);
    assert_eq!(status[0].num_requests, 0);
}

#[test]
fn exhausted_pool_fails_without_a_call() {
    let mut pool = KeyJuggler::from_keys(vec![
        key("AAAAAA-0001", Some(NOW), 0),
        key("BBBBBB-0002", Some(NOW - HOUR), 0),
    ]);
    let (state, calls) = serve(&mut pool, &|_| panic!("no call is made"), false);
    assert!(calls.is_empty());
    match state {
        State::Failed(failure) => assert_eq!(failure.status(), 429),
        _ => panic!("the pool is exhausted"),
    }
    let mut empty = KeyJuggler::from_keys(Vec::new());
    let (state, calls) = serve(&mut empty, &|_| panic!("no call is made"), true);
    assert!(calls.is_empty());
    assert!(matches!(state, State::Failed(Failure::PoolExhausted)));
}

#[test]
fn daily_quota_rotates_to_the_next_credential() {
    let mut pool = KeyJuggler::in_order(vec![
        "AAAAAA-0001".to_string(),
        "BBBBBB-0002".to_string(),
        "CCCCCC-0003".to_string(),
    ]);
    let upstream = |secret: &str| {
        if secret == "CCCCCC-0003" {
            Some((200, b"done".to_vec()))
        } else {
            Some((429, b"Quota exceeded: requests per day".to_vec()))
        }
    };
    let (state, calls) = serve(&mut pool, &upstream, false);
    assert_eq!(calls, vec!["AAAAAA-0001", "BBBBBB-0002", "CCCCCC-0003"]);
    assert!(matches!(state, State::Done(Delivery::Buffer(_))));
    let status = pool.get_status_at(NOW);
    assert!(status[0].is_ratelimited && status[1].is_ratelimited && !status[2].is_ratelimited);
    assert_eq!(status[2].num_requests, 1);
}

#[test]
fn broken_credential_is_removed_and_the_next_one_called() {
    let mut pool = KeyJuggler::in_order(vec![
        "AAAAAA-0001".to_string(),
        "BBBBBB-0002".to_string(),
    ]);
    let upstream = |secret: &str| {
        if secret == "AAAAAA-0001" {
            Some((429, vec![b'x'; 344]))
        } else {
            Some((200, b"done".to_vec()))
        }
    };
    let (state, calls) = serve(&mut pool, &upstream, true);
    assert_eq!(calls, vec!["AAAAAA-0001", "BBBBBB-0002"]);
    assert!(matches!(state, State::Done(Delivery::Stream(_))));
    assert_eq!(pool.len(), 1);
    assert_eq!(pool.get_status_at(NOW)[0].key_masked, "BBBBBB...0002");
}

#[test]
fn broken_credentials_all_the_way_down_exhaust_the_pool() {
    let mut pool = KeyJuggler::in_order(vec![
        "AAAAAA-0001".to_string(),
        "BBBBBB-0002".to_string(),
    ]);
    let (state, calls) = serve(&mut pool, &|_| Some((429, vec![b'x'; 344])), false);
    assert_eq!(calls.len(), 2);
    assert!(matches!(state, State::Failed(Failure::PoolExhausted)));
    assert_eq!(pool.len(), 0);
}

#[test]
fn upstream_error_is_relayed_as_it_is() {
    let mut pool = KeyJuggler::in_order(vec![
        "AAAAAA-0001".to_string(),
        "BBBBBB-0002".to_string(),
    ]);
    let (state, calls) = serve(&mut pool, &|_| Some((400, b"{\"error\":\"bad request\"}".to_vec())), false);
    assert_eq!(calls, vec!["AAAAAA-0001"]);
    match state {
        State::Done(Delivery::Relay(response)) => {
            assert_eq!(response.status, 400);
            assert_eq!(response.body, b"{\"error\":\"bad request\"}");
            assert_eq!(response.headers[0].value, b"1");
        }
        _ => panic!("the upstream's error goes to the client"),
    }
    assert_eq!(pool.len(), 2);
    assert!(!pool.get_status_at(NOW)[0].is_ratelimited);
}

#[test]
fn burst_limit_is_relayed_and_not_retried() {
    let mut pool = KeyJuggler::in_order(vec![
        "AAAAAA-0001".to_string(),
        "BBBBBB-0002".to_string(),
    ]);
    let (state, calls) = serve(&mut pool, &|_| Some((429, b"slow down".to_vec())), false);
    assert_eq!(calls.len(), 1);
    match state {
        State::Done(Delivery::Relay(response)) => assert_eq!(response.status, 429),
        _ => panic!("a burst limit goes to the client"),
    }
}

#[test]
fn transport_failure_fails_the_request_and_is_not_retried() {
    let mut pool = KeyJuggler::in_order(vec![
        "AAAAAA-0001".to_string(),
        "BBBBBB-0002".to_string(),
    ]);
    let (state, calls) = serve(&mut pool, &|_| None, false);
    assert_eq!(calls, vec!["AAAAAA-0001"]);
    match state {
        State::Failed(failure) => {
            assert_eq!(failure.status(), 502);
            assert_eq!(failure.message(), "Error forwarding request: connection refused");
        }
        _ => panic!("a failed call fails the request"),
    }
    let status = pool.get_status_at(NOW);
    assert!(!status[0].is_ratelimited);
    assert_eq!(status[0].num_requests, 1);
}

#[test]
fn quota_report_for_a_secret_not_in_the_pool_fails_the_request() {
    let mut pool = KeyJuggler::in_order(vec!["AAAAAA-0001".to_string()]);
    let state = decide_at(&mut pool, "ZZZZZZ-9999", Event::Retry, false, NOW);
    assert!(matches!(state, State::Failed(Failure::PoolExhausted)));
    assert!(!pool.get_status_at(NOW)[0].is_ratelimited);
}

#[test]
fn repeated_secret_out_of_quota_is_not_called_twice() {
    let mut pool = KeyJuggler::in_order(vec![
        "AAAAAA-0001".to_string(),
        "AAAAAA-0001".to_string(),
    ]);
    let (state, calls) = serve(&mut pool, &|_| Some((429, b"daily quota exceeded".to_vec())), false);
    assert_eq!(calls, vec!["AAAAAA-0001"]);
    assert!(matches!(state, State::Failed(Failure::PoolExhausted)));
    let status = pool.get_status_at(NOW);
    assert!(status[0].is_ratelimited && status[1].is_ratelimited);
}

#[test]
fn repeated_broken_secret_is_not_called_twice() {
    let mut pool = KeyJuggler::in_order(vec![
        "AAAAAA-0001".to_string(),
        "BBBBBB-0002".to_string(),
        "AAAAAA-0001".to_string(),
    ]);
    let upstream = |secret: &str| {
        if secret == "AAAAAA-0001" {
            Some((429, vec![b'x'; 344]))
        } else {
            Some((200, b"done".to_vec()))
        }
    };
    let (state, calls) = serve(&mut pool, &upstream, false);
    assert_eq!(calls, vec!["AAAAAA-0001", "BBBBBB-0002"]);
    assert!(matches!(state, State::Done(Delivery::Buffer(_))));
    assert_eq!(pool.len(), 1);
}
