//! The retry orchestrator: what to do next for one client request.
//!
//! A request starts with [`begin`]. As long as the state is
//! [`State::Calling`], the caller makes the upstream call with the secret it
//! names, has the forwarding engine classify the answer, and comes back with
//! the event to [`decide`]. [`State::Done`] and [`State::Failed`] end the
//! request; the pool is not touched after either.

use crate::clock::now_millis;
use crate::juggler::KeyJuggler;
use crate::model::{
    all_blocked, best_index, holds, is_best, lemma_best_index, lemma_removed, penalized, removed,
    select_fits, selected, KeyModel,
};
use crate::requester::{Event, Response, ResponseHead};
use vstd::prelude::*;
use vstd::string::StringExecFns;

verus! {

/// The status that tells a client that no credential is free.
pub const POOL_EXHAUSTED_STATUS: u16 = 429;

/// The status that tells a client that the upstream could not be reached.
pub const BAD_GATEWAY_STATUS: u16 = 502;

/// Why a request was given up.
pub enum Failure {
    /// Every credential is blocked, or none is left.
    PoolExhausted,
    /// The call to the upstream failed; the text says how.
    Transport(String),
}

/// How the upstream's answer goes to the client.
pub enum Delivery {
    /// The upstream accepted and the client asked for a stream: the body is
    /// passed on as it arrives.
    Stream(ResponseHead),
    /// The upstream accepted and the client asked for one answer: the body
    /// is read to its end and sent whole.
    Buffer(ResponseHead),
    /// The upstream answered with something that no other credential would
    /// change: status, headers and body go to the client as they are.
    Relay(Response),
}

/// Where a request stands.
pub enum State {
    /// The upstream is to be called with this secret.
    Calling(String),
    /// The request has its answer.
    Done(Delivery),
    /// The request was given up.
    Failed(Failure),
}

/// `state` is where a selection at `now` from the pool `keys` leads: to a
/// call with the secret of the pick, or to failure when the pool is
/// exhausted.
pub open spec fn leads_to(keys: Seq<KeyModel>, now: int, state: State) -> bool {
    match best_index(keys, now) {
        Some(i) => state matches State::Calling(secret) && secret@ == keys[i].secret,
        None => state == State::Failed(Failure::PoolExhausted),
    }
}

/// The pool can take the selection that [`decide_at`] makes for this event.
pub open spec fn decide_fits(keys: Seq<KeyModel>, key: Seq<char>, event: Event, now: int) -> bool {
    match event {
        Event::Retry => holds(keys, key) ==> select_fits(penalized(keys, key, now), now),
        Event::BadKey => select_fits(removed(keys, key), now),
        _ => true,
    }
}

impl Failure {
    /// The status code that a given-up request is answered with.
    pub open spec fn status_code(self) -> u16 {
        match self {
            Failure::PoolExhausted => POOL_EXHAUSTED_STATUS,
            Failure::Transport(_) => BAD_GATEWAY_STATUS,
        }
    }

    /// The text that a given-up request is answered with.
    pub open spec fn text(self) -> Seq<char> {
        match self {
            Failure::PoolExhausted => "All API keys are ratelimited"@,
            Failure::Transport(detail) => detail@,
        }
    }

    /// The status code that a given-up request is answered with.
    pub fn status(&self) -> (code: u16)
        ensures
            code == self.status_code(),
    {
        match self {
            Failure::PoolExhausted => POOL_EXHAUSTED_STATUS,
            Failure::Transport(_) => BAD_GATEWAY_STATUS,
        }
    }

    /// The text that a given-up request is answered with.
    pub fn message(&self) -> (message: String)
        ensures
            message@ == self.text(),
    {
        match self {
            Failure::PoolExhausted => String::from_str("All API keys are ratelimited"),
            Failure::Transport(detail) => detail.clone(),
        }
    }
}

/// Selects the credential for the first call of a request, at the time
/// `now`.
pub fn begin_at(juggler: &mut KeyJuggler, now: i64) -> (state: State)
    requires
        select_fits(old(juggler)@, now as int),
    ensures
        final(juggler)@ == selected(old(juggler)@, now as int),
        leads_to(old(juggler)@, now as int, state),
        state is Failed <==> all_blocked(old(juggler)@, now as int),
{
    proof {
        lemma_best_index(juggler@, now as int);
    }
    match juggler.select_at(now) {
        Some(picked) => State::Calling(picked.key.clone()),
        None => State::Failed(Failure::PoolExhausted),
    }
}

/// Decides what follows the call that was made with the secret `key` and
/// came to `event`, at the time `now`.
///
/// - An accepted request is done: its body goes to the client as a stream or
///   whole, as `streaming` says.
/// - An answer that no other credential would change is done: it goes to
///   the client as it is.
/// - A secret out of quota is penalized, and the credential that the
///   registry hands out instead is called; with none to hand out, or with a
///   secret that the pool does not hold, the request fails.
/// - A broken secret is removed and another one selected; with none left,
///   the request fails.
/// - Either way the secret that was reported is not called again.
/// - A failed call fails the request. It is not tried again.
pub fn decide_at(
    juggler: &mut KeyJuggler,
    key: &str,
    event: Event,
    streaming: bool,
    now: i64,
) -> (state: State)
    requires
        decide_fits(old(juggler)@, key@, event, now as int),
    ensures
        match event {
            Event::Forward(head) => {
                &&& final(juggler)@ == old(juggler)@
                &&& streaming ==> state == State::Done(Delivery::Stream(head))
                &&& !streaming ==> state == State::Done(Delivery::Buffer(head))
            },
            Event::Relay(response) => {
                &&& final(juggler)@ == old(juggler)@
                &&& state == State::Done(Delivery::Relay(response))
            },
            Event::Fail(detail) => {
                &&& final(juggler)@ == old(juggler)@
                &&& state == State::Failed(Failure::Transport(detail))
            },
            Event::Retry => if holds(old(juggler)@, key@) {
                &&& final(juggler)@ == selected(
                    penalized(old(juggler)@, key@, now as int),
                    now as int,
                )
                &&& leads_to(penalized(old(juggler)@, key@, now as int), now as int, state)
            } else {
                &&& final(juggler)@ == old(juggler)@
                &&& state == State::Failed(Failure::PoolExhausted)
            },
            Event::BadKey => {
                &&& final(juggler)@ == selected(removed(old(juggler)@, key@), now as int)
                &&& leads_to(removed(old(juggler)@, key@), now as int, state)
            },
        },
        event is Retry || event is BadKey ==> (state matches State::Calling(next) ==> next@ != key@),
{
    proof {
        lemma_removed(juggler@, key@);
        lemma_best_index(removed(juggler@, key@), now as int);
        if let Some(i) = best_index(removed(juggler@, key@), now as int) {
            assert(is_best(removed(juggler@, key@), now as int, i));
        }
    }
    match event {
        Event::Forward(head) => {
            if streaming {
                State::Done(Delivery::Stream(head))
            } else {
                State::Done(Delivery::Buffer(head))
            }
        },
        Event::Relay(response) => State::Done(Delivery::Relay(response)),
        Event::Fail(detail) => State::Failed(Failure::Transport(detail)),
        Event::Retry => {
            match juggler.ratelimit_at(key, now) {
                Some(next) => State::Calling(next.key.clone()),
                None => State::Failed(Failure::PoolExhausted),
            }
        },
        Event::BadKey => {
            juggler.remove(key);
            begin_at(juggler, now)
        },
    }
}

/// [`begin_at`] at the current time.
pub fn begin(juggler: &mut KeyJuggler) -> (state: State)
    requires
        forall|now: int| select_fits(old(juggler)@, now),
    ensures
        exists|now: int|
            {
                &&& final(juggler)@ == selected(old(juggler)@, now)
                &&& #[trigger] leads_to(old(juggler)@, now, state)
            },
{
    let now = now_millis();
    begin_at(juggler, now)
}

/// [`decide_at`] at the current time.
pub fn decide(juggler: &mut KeyJuggler, key: &str, event: Event, streaming: bool) -> (state: State)
    requires
        forall|now: int| decide_fits(old(juggler)@, key@, event, now),
    ensures
        event matches Event::Forward(head) ==> final(juggler)@ == old(juggler)@ && state
            == State::Done(
            if streaming {
                Delivery::Stream(head)
            } else {
                Delivery::Buffer(head)
            },
        ),
        event matches Event::Relay(response) ==> final(juggler)@ == old(juggler)@ && state
            == State::Done(Delivery::Relay(response)),
        event matches Event::Fail(detail) ==> final(juggler)@ == old(juggler)@ && state
            == State::Failed(Failure::Transport(detail)),
        event is Retry && !holds(old(juggler)@, key@) ==> final(juggler)@ == old(juggler)@ && state
            == State::Failed(Failure::PoolExhausted),
        event is Retry && holds(old(juggler)@, key@) ==> exists|now: int|
            {
                &&& final(juggler)@ == selected(penalized(old(juggler)@, key@, now), now)
                &&& #[trigger] leads_to(penalized(old(juggler)@, key@, now), now, state)
            },
        event is BadKey ==> exists|now: int|
            {
                &&& final(juggler)@ == selected(removed(old(juggler)@, key@), now)
                &&& #[trigger] leads_to(removed(old(juggler)@, key@), now, state)
            },
        event is Retry || event is BadKey ==> (state matches State::Calling(next) ==> next@ != key@),
{
    let now = now_millis();
    decide_at(juggler, key, event, streaming, now)
}

/// With every credential blocked, or none left, a request fails before any
/// call is made, and the client is told that there are too many requests.
pub proof fn lemma_exhausted_pool_rejects(keys: Seq<KeyModel>, now: int, state: State)
    requires
        all_blocked(keys, now),
        leads_to(keys, now, state),
    ensures
        state == State::Failed(Failure::PoolExhausted),
        state->Failed_0.status_code() == 429,
        state->Failed_0.text() == "All API keys are ratelimited"@,
{
    lemma_best_index(keys, now);
}

/// With a credential that is not blocked, a request starts with a call, and
/// the call is made with a secret of the pool that is not blocked.
pub proof fn lemma_open_pool_calls(keys: Seq<KeyModel>, now: int, state: State)
    requires
        !all_blocked(keys, now),
        leads_to(keys, now, state),
    ensures
        state matches State::Calling(secret) && exists|i: int|
            0 <= i < keys.len() && !(#[trigger] keys[i]).blocked(now) && keys[i].secret == secret@,
{
    lemma_best_index(keys, now);
    let i = best_index(keys, now)->0;
    assert(is_best(keys, now, i));
    assert(!keys[i].blocked(now));
}

/// When the last free secret runs out of quota, the request fails after
/// that one call: with every credential of another secret blocked,
/// penalizing leaves the pool exhausted, and the client is told that there
/// are too many requests.
pub proof fn lemma_last_free_credential(
    keys: Seq<KeyModel>,
    secret: Seq<char>,
    now: int,
    state: State,
)
    requires
        forall|j: int|
            0 <= j < keys.len() && (#[trigger] keys[j]).secret != secret ==> keys[j].blocked(now),
        leads_to(penalized(keys, secret, now), now, state),
    ensures
        all_blocked(penalized(keys, secret, now), now),
        state == State::Failed(Failure::PoolExhausted),
        state->Failed_0.status_code() == 429,
        state->Failed_0.text() == "All API keys are ratelimited"@,
{
    let after = penalized(keys, secret, now);
    assert forall|j: int| 0 <= j < after.len() implies (#[trigger] after[j]).blocked(now) by {
        if keys[j].secret != secret {
            assert(keys[j].blocked(now));
        }
    }
    lemma_exhausted_pool_rejects(after, now, state);
}

} // verus!
