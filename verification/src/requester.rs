//! The forwarding engine: what is sent upstream for one attempt, and what
//! the answer amounts to.
//!
//! The engine decides; it does not talk. A caller sends the request that
//! [`Requester::gemini_request`] or [`Requester::openai_request`] describes,
//! looks at the status of the answer, reads the body where
//! [`Requester::reads_body`] says so, and hands both to
//! [`Requester::handle_status`].

use vstd::prelude::*;
use vstd::string::StringExecFns;

verus! {

/// The status with which the upstream refuses a request for being one too
/// many.
pub const TOO_MANY_REQUESTS: u16 = 429;

/// The length in bytes of the page with which this upstream answers for a
/// credential that is broken for good.
pub const BAD_KEY_BODY_LEN: usize = 344;

/// One header line of a response.
pub struct Header {
    pub name: String,
    pub value: Vec<u8>,
}

/// The status line and headers of an upstream response whose body has not
/// been read.
pub struct ResponseHead {
    pub status: u16,
    pub headers: Vec<Header>,
}

/// An upstream response with its body.
pub struct Response {
    pub status: u16,
    pub headers: Vec<Header>,
    pub body: Vec<u8>,
}

/// What one upstream attempt amounts to.
pub enum Event {
    /// The upstream answered with something that no other credential would
    /// change. It goes to the client as it is.
    Relay(Response),
    /// The upstream accepted the request. The body is still unread, so that
    /// it can be streamed.
    Forward(ResponseHead),
    /// The credential has run out of its daily quota.
    Retry,
    /// The credential is broken for good.
    BadKey,
    /// The call itself failed; the text says how.
    Fail(String),
}

/// What to send upstream for one attempt.
pub struct UpstreamRequest {
    /// Where to post the body.
    pub url: String,
    /// The value of the `Authorization` header, where one is sent.
    pub authorization: Option<String>,
    /// Whether the client may decode a compressed answer. It may not: what
    /// the upstream sends is passed on byte for byte.
    pub decompress: bool,
}

/// The forwarding engine.
pub struct Requester {
    bad_key_body_len: usize,
}

/// Whether a status reports success.
pub open spec fn is_success(status: u16) -> bool {
    200 <= status <= 299
}

/// The lower-case form of an ASCII letter; every other byte is itself.
pub open spec fn lower(byte: u8) -> u8 {
    if 65 <= byte <= 90 {
        (byte + 32) as u8
    } else {
        byte
    }
}

/// The token stands in the text at `at`, letter case aside.
pub open spec fn stands_at(text: Seq<u8>, token: Seq<u8>, at: int) -> bool {
    &&& 0 <= at
    &&& at + token.len() <= text.len()
    &&& forall|k: int| 0 <= k < token.len() ==> lower(#[trigger] text[at + k]) == token[k]
}

/// The token stands somewhere in the text, letter case aside.
pub open spec fn mentions(text: Seq<u8>, token: Seq<u8>) -> bool {
    exists|at: int| stands_at(text, token, at)
}

/// The word `day`, in ASCII.
pub open spec fn day_token() -> Seq<u8> {
    seq![100u8, 97u8, 121u8]
}

/// The word `daily`, in ASCII.
pub open spec fn daily_token() -> Seq<u8> {
    seq![100u8, 97u8, 105u8, 108u8, 121u8]
}

/// The text speaks of a quota that renews daily: it holds the word `day` or
/// the word `daily`, in any letter case and anywhere, inside longer words
/// too.
pub open spec fn names_daily_quota(text: Seq<u8>) -> bool {
    mentions(text, day_token()) || mentions(text, daily_token())
}

/// The four ways in which a response can be classified.
pub enum Class {
    Success,
    QuotaExceeded,
    InvalidCredential,
    NonRetryable,
}

/// The class of a response, from its status and, for status 429 alone, its
/// body. `bad_key_body_len` is the body length that marks a broken
/// credential.
pub open spec fn classify(status: u16, body: Seq<u8>, bad_key_body_len: int) -> Class {
    if is_success(status) {
        Class::Success
    } else if status != TOO_MANY_REQUESTS {
        Class::NonRetryable
    } else if names_daily_quota(body) {
        Class::QuotaExceeded
    } else if body.len() == bad_key_body_len {
        Class::InvalidCredential
    } else {
        Class::NonRetryable
    }
}

/// Where single-shot and streamed generation are posted to, up to the name
/// of the model.
pub open spec fn models_url() -> Seq<char> {
    "https://generativelanguage.googleapis.com/v1beta/models/"@
}

/// The URL of a call in the native format: the credential travels in the
/// query.
pub open spec fn gemini_url(key: Seq<char>, model: Seq<char>, stream: bool) -> Seq<char> {
    if stream {
        models_url() + model + ":streamGenerateContent?key="@ + key + "&alt=sse"@
    } else {
        models_url() + model + ":generateContent?key="@ + key
    }
}

/// The URL of a call in the OpenAI-compatible format.
pub open spec fn openai_url() -> Seq<char> {
    "https://generativelanguage.googleapis.com/v1beta/openai/chat/completions"@
}

/// The `Authorization` value that carries a secret as a bearer token.
pub open spec fn bearer(secret: Seq<char>) -> Seq<char> {
    "Bearer "@ + secret
}

/// The lower-case form of an ASCII letter; every other byte is itself.
fn to_lower(byte: u8) -> (low: u8)
    ensures
        low == lower(byte),
{
    if 65 <= byte && byte <= 90 {
        byte + 32
    } else {
        byte
    }
}

/// Whether the token stands in the text at `at`, letter case aside.
fn token_at(text: &[u8], token: &[u8], at: usize) -> (found: bool)
    requires
        at + token@.len() <= text@.len(),
    ensures
        found == stands_at(text@, token@, at as int),
{
    let len = text.len();
    let mut k: usize = 0;
    while k < token.len()
        invariant
            k <= token@.len(),
            at + token@.len() <= text@.len() == len,
            forall|j: int| 0 <= j < k ==> lower(#[trigger] text@[at + j]) == token@[j],
        decreases token@.len() - k,
    {
        if to_lower(text[at + k]) != token[k] {
            return false;
        }
        k += 1;
    }
    true
}

/// Whether the token stands somewhere in the text, letter case aside.
///
/// The token is expected in lower case: an upper-case letter in it matches
/// nothing.
pub fn contains_ignore_case(text: &[u8], token: &[u8]) -> (found: bool)
    ensures
        found == mentions(text@, token@),
{
    if token.len() > text.len() {
        assert forall|at: int| !stands_at(text@, token@, at) by {}
        return false;
    }
    let last: usize = text.len() - token.len();
    let mut at: usize = 0;
    loop
        invariant
            last == text@.len() - token@.len(),
            at <= last,
            forall|j: int| 0 <= j < at ==> !stands_at(text@, token@, j),
        decreases last - at,
    {
        if token_at(text, token, at) {
            return true;
        }
        if at == last {
            assert forall|j: int| !stands_at(text@, token@, j) by {}
            return false;
        }
        at += 1;
    }
}

impl ResponseHead {
    /// The response that this head and a body make. Nothing of either is
    /// changed.
    pub fn complete(self, body: Vec<u8>) -> (response: Response)
        ensures
            response == (Response { status: self.status, headers: self.headers, body }),
    {
        Response { status: self.status, headers: self.headers, body }
    }
}

/// Whether the text speaks of a quota that renews daily.
pub fn speaks_of_daily_quota(text: &[u8]) -> (found: bool)
    ensures
        found == names_daily_quota(text@),
{
    let day: [u8; 3] = [100, 97, 121];
    let daily: [u8; 5] = [100, 97, 105, 108, 121];
    assert(day@ =~= day_token());
    assert(daily@ =~= daily_token());
    contains_ignore_case(text, day.as_slice()) || contains_ignore_case(text, daily.as_slice())
}

impl Requester {
    /// The body length that this engine takes for the mark of a broken
    /// credential.
    pub closed spec fn bad_key_len(&self) -> int {
        self.bad_key_body_len as int
    }

    /// An engine for the upstream whose broken-credential page is
    /// [`BAD_KEY_BODY_LEN`] bytes long.
    pub fn new() -> (made: Requester)
        ensures
            made.bad_key_len() == BAD_KEY_BODY_LEN,
    {
        Requester { bad_key_body_len: BAD_KEY_BODY_LEN }
    }

    /// An engine for an upstream whose broken-credential page has another
    /// length.
    pub fn with_bad_key_body_len(len: usize) -> (made: Requester)
        ensures
            made.bad_key_len() == len,
    {
        Requester { bad_key_body_len: len }
    }

    /// The request of a call in the native format.
    pub fn gemini_request(&self, key: &str, model: &str, stream: bool) -> (request: UpstreamRequest)
        ensures
            request.url@ == gemini_url(key@, model@, stream),
            request.authorization is None,
            !request.decompress,
    {
        let base = String::from_str("https://generativelanguage.googleapis.com/v1beta/models/")
            .concat(model);
        let url = if stream {
            base.concat(":streamGenerateContent?key=").concat(key).concat("&alt=sse")
        } else {
            base.concat(":generateContent?key=").concat(key)
        };
        UpstreamRequest { url, authorization: None, decompress: false }
    }

    /// The request of a call in the OpenAI-compatible format: the credential
    /// travels as a bearer token.
    pub fn openai_request(&self, key: &str) -> (request: UpstreamRequest)
        ensures
            request.url@ == openai_url(),
            request.authorization matches Some(value) && value@ == bearer(key@),
            !request.decompress,
    {
        UpstreamRequest {
            url: String::from_str(
                "https://generativelanguage.googleapis.com/v1beta/openai/chat/completions",
            ),
            authorization: Some(String::from_str("Bearer ").concat(key)),
            decompress: false,
        }
    }

    /// Whether the body of a response with this status is read before the
    /// response is classified: always, unless the status reports success.
    pub fn reads_body(status: u16) -> (reads: bool)
        ensures
            reads == !is_success(status),
    {
        !(200 <= status && status <= 299)
    }

    /// Classifies a response.
    ///
    /// `body` is what was read of the body: all of it where
    /// [`Requester::reads_body`] holds of the status. For a status that
    /// reports success it is not looked at.
    pub fn handle_status(&self, status: u16, headers: Vec<Header>, body: Vec<u8>) -> (event: Event)
        ensures
            match classify(status, body@, self.bad_key_len()) {
                Class::Success => event == Event::Forward(ResponseHead { status, headers }),
                Class::QuotaExceeded => event == Event::Retry,
                Class::InvalidCredential => event == Event::BadKey,
                Class::NonRetryable => event == Event::Relay(Response { status, headers, body }),
            },
    {
        if 200 <= status && status <= 299 {
            return Event::Forward(ResponseHead { status, headers });
        }
        if status == TOO_MANY_REQUESTS {
            if speaks_of_daily_quota(body.as_slice()) {
                return Event::Retry;
            }
            if body.len() == self.bad_key_body_len {
                return Event::BadKey;
            }
        }
        Event::Relay(Response { status, headers, body })
    }

    /// The event of a call that failed before a response arrived.
    pub fn send_failed(detail: &str) -> (event: Event)
        ensures
            event matches Event::Fail(text) && text@ == "Error forwarding request: "@ + detail@,
    {
        Event::Fail(String::from_str("Error forwarding request: ").concat(detail))
    }

    /// The event of a response whose body could not be read.
    pub fn read_failed(detail: &str) -> (event: Event)
        ensures
            event matches Event::Fail(text) && text@ == "Error reading response: "@ + detail@,
    {
        Event::Fail(String::from_str("Error reading response: ").concat(detail))
    }
}

} // verus!
