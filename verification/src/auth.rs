//! The gateway secret: how a client presents it, and whether it is the
//! right one.

use crate::requester::bearer;
use vstd::prelude::*;

verus! {

/// Whether an `Authorization` value carries a bearer token.
pub open spec fn is_bearer(value: Seq<char>) -> bool {
    "Bearer "@.is_prefix_of(value)
}

/// The token that an `Authorization` value carries: what follows the
/// scheme.
pub open spec fn token_of(value: Seq<char>) -> Seq<char> {
    value.skip("Bearer "@.len() as int)
}

/// The bearer token of an `Authorization` value, or `None` where the value
/// does not start with the scheme and one blank.
pub fn extract_bearer_token(value: &str) -> (token: Option<String>)
    ensures
        match token {
            Some(text) => is_bearer(value@) && text@ == token_of(value@),
            None => !is_bearer(value@),
        },
{
    let scheme = "Bearer ";
    proof {
        reveal_strlit("Bearer ");
    }
    let len = value.unicode_len();
    if len < 7 {
        return None;
    }
    let mut at: usize = 0;
    while at < 7
        invariant
            at <= 7 <= len == value@.len(),
            scheme@ == "Bearer "@,
            scheme@.len() == 7,
            forall|j: int| 0 <= j < at ==> value@[j] == scheme@[j],
        decreases 7 - at,
    {
        if value.get_char(at) != scheme.get_char(at) {
            assert(value@.subrange(0, 7)[at as int] != scheme@[at as int]);
            return None;
        }
        at += 1;
    }
    assert(value@.subrange(0, 7) =~= scheme@);
    assert(value@.subrange(7, len as int) =~= value@.skip(7));
    Some(value.substring_char(7, len).to_owned())
}

/// Whether a client that sent this `Authorization` value, or none, may use
/// the gateway: the value has to carry the gateway secret as its bearer
/// token.
pub fn authorized(value: Option<&str>, api_key: &str) -> (ok: bool)
    ensures
        ok == (value matches Some(sent) && sent@ == bearer(api_key@)),
{
    match value {
        None => false,
        Some(sent) => match extract_bearer_token(sent) {
            None => {
                proof {
                    reveal_strlit("Bearer ");
                    if sent@ == bearer(api_key@) {
                        assert(sent@.subrange(0, 7) =~= "Bearer "@);
                    }
                }
                false
            },
            Some(token) => {
                let wanted = api_key.to_owned();
                proof {
                    reveal_strlit("Bearer ");
                    assert(sent@ =~= sent@.subrange(0, 7) + sent@.skip(7));
                    if sent@ == bearer(api_key@) {
                        assert(sent@.skip(7) =~= api_key@);
                    }
                }
                token == wanted
            },
        },
    }
}

/// Whether the secret that a client sent in the query is the gateway
/// secret.
pub fn same_secret(sent: &str, api_key: &str) -> (ok: bool)
    ensures
        ok == (sent@ == api_key@),
{
    sent.to_owned() == api_key.to_owned()
}

} // verus!
