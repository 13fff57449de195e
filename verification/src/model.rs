//! The mathematical model of the credential pool.
//!
//! A pool is a sequence of [`KeyModel`]s. Every operation of the registry is
//! described here as a function from the pool before to the pool after, and
//! the contracts of the executable code refer to these functions only.

use vstd::prelude::*;

verus! {

/// Length of the rolling quota window, in milliseconds: one day.
pub const QUOTA_WINDOW_MILLIS: i64 = 86_400_000;

/// One credential as the contracts see it.
pub struct KeyModel {
    /// The secret, as text.
    pub secret: Seq<char>,
    /// When the upstream last reported the quota as exhausted, in
    /// milliseconds since the Unix epoch; `None` when no block is recorded.
    pub blocked_at: Option<int>,
    /// Selections since the credential was last blocked.
    pub usage: nat,
}

impl KeyModel {
    /// A credential as it enters the pool: never blocked, never used.
    pub open spec fn fresh(secret: Seq<char>) -> KeyModel {
        KeyModel { secret, blocked_at: None, usage: 0 }
    }

    /// Whether the credential is inside its quota window at `now`.
    ///
    /// The window is rolling: it ends once strictly more than
    /// [`QUOTA_WINDOW_MILLIS`] have passed since the block was recorded.
    pub open spec fn blocked(self, now: int) -> bool {
        match self.blocked_at {
            Some(at) => now - at <= QUOTA_WINDOW_MILLIS,
            None => false,
        }
    }

    /// The credential after the read-time normalization: a block whose window
    /// has passed is forgotten, everything else stays.
    pub open spec fn expired(self, now: int) -> KeyModel {
        if self.blocked(now) {
            self
        } else {
            KeyModel { blocked_at: None, ..self }
        }
    }

    /// The credential after one more selection.
    pub open spec fn bumped(self) -> KeyModel {
        KeyModel { usage: self.usage + 1, ..self }
    }

    /// The credential after the upstream reported its quota as exhausted at
    /// `now`.
    pub open spec fn penalized(self, now: int) -> KeyModel {
        KeyModel { blocked_at: Some(now), usage: 0, ..self }
    }

    /// Milliseconds until the block ends, for a blocked credential.
    pub open spec fn millis_remaining(self, now: int) -> int {
        QUOTA_WINDOW_MILLIS - (now - self.blocked_at->0)
    }
}

/// The pool after every stale block has been cleared.
pub open spec fn expire(keys: Seq<KeyModel>, now: int) -> Seq<KeyModel> {
    Seq::new(keys.len(), |i: int| keys[i].expired(now))
}

/// Every credential of the pool is blocked at `now`. True of the empty pool.
pub open spec fn all_blocked(keys: Seq<KeyModel>, now: int) -> bool {
    forall|i: int| 0 <= i < keys.len() ==> (#[trigger] keys[i]).blocked(now)
}

/// `i` is the credential that selection picks at `now`: it is not blocked, no
/// unblocked credential has been used less, and every unblocked credential
/// before it has been used strictly more.
pub open spec fn is_best(keys: Seq<KeyModel>, now: int, i: int) -> bool {
    &&& 0 <= i < keys.len()
    &&& !keys[i].blocked(now)
    &&& forall|j: int|
        0 <= j < keys.len() && !(#[trigger] keys[j]).blocked(now) ==> keys[i].usage <= keys[j].usage
    &&& forall|j: int|
        0 <= j < i && !(#[trigger] keys[j]).blocked(now) ==> keys[i].usage < keys[j].usage
}

/// The index that selection picks at `now`, or `None` when the pool is
/// exhausted.
pub open spec fn best_index(keys: Seq<KeyModel>, now: int) -> Option<int> {
    if exists|i: int| is_best(keys, now, i) {
        Some(choose|i: int| is_best(keys, now, i))
    } else {
        None
    }
}

/// The secrets of the pool, in pool order.
pub open spec fn secrets(keys: Seq<KeyModel>) -> Seq<Seq<char>> {
    Seq::new(keys.len(), |i: int| keys[i].secret)
}

/// `secret` occurs in the pool.
pub open spec fn holds(keys: Seq<KeyModel>, secret: Seq<char>) -> bool {
    exists|i: int| 0 <= i < keys.len() && (#[trigger] keys[i]).secret == secret
}

/// The pool after a selection at `now`: stale blocks are cleared and the
/// credential that was picked, if any, has been used once more.
pub open spec fn selected(keys: Seq<KeyModel>, now: int) -> Seq<KeyModel> {
    let cleared = expire(keys, now);
    match best_index(keys, now) {
        Some(i) => cleared.update(i, cleared[i].bumped()),
        None => cleared,
    }
}

/// The pool after every credential with `secret` was blocked at `now`.
/// Nothing changes when the secret is not in the pool.
pub open spec fn penalized(keys: Seq<KeyModel>, secret: Seq<char>, now: int) -> Seq<KeyModel> {
    Seq::new(
        keys.len(),
        |i: int|
            if keys[i].secret == secret {
                keys[i].penalized(now)
            } else {
                keys[i]
            },
    )
}

/// The pool without the credentials with `secret`: every other credential
/// stays, in its order. Nothing changes when the secret is not in the pool.
pub open spec fn removed(keys: Seq<KeyModel>, secret: Seq<char>) -> Seq<KeyModel> {
    keys.filter(|key: KeyModel| key.secret != secret)
}

/// The index that is used at `now` when a credential is wanted whatever the
/// state of the pool: the pick of a selection, or the first credential when
/// the pool is exhausted.
pub open spec fn current_index(keys: Seq<KeyModel>, now: int) -> int {
    match best_index(keys, now) {
        Some(i) => i,
        None => 0,
    }
}

/// The counter of the credential that selection would pick at `now` can
/// still be incremented.
pub open spec fn select_fits(keys: Seq<KeyModel>, now: int) -> bool {
    match best_index(keys, now) {
        Some(i) => keys[i].usage < u64::MAX,
        None => true,
    }
}

/// Every counter of the pool can still be incremented.
pub open spec fn headroom(keys: Seq<KeyModel>) -> bool {
    forall|i: int| 0 <= i < keys.len() ==> (#[trigger] keys[i]).usage < u64::MAX
}

/// How many credentials of the pool are not blocked at `now`.
pub open spec fn eligible(keys: Seq<KeyModel>, now: int) -> nat
    decreases keys.len(),
{
    if keys.len() == 0 {
        0
    } else {
        eligible(keys.drop_last(), now) + if keys.last().blocked(now) {
            0nat
        } else {
            1nat
        }
    }
}

/// At most one index satisfies [`is_best`].
pub proof fn lemma_best_unique(keys: Seq<KeyModel>, now: int, i: int, j: int)
    requires
        is_best(keys, now, i),
        is_best(keys, now, j),
    ensures
        i == j,
{
    if i < j {
        assert(!keys[i].blocked(now));
    } else if j < i {
        assert(!keys[j].blocked(now));
    }
}

/// [`best_index`] is `Some(i)` exactly for the `i` that satisfies
/// [`is_best`], and `None` exactly when every credential is blocked.
pub proof fn lemma_best_index(keys: Seq<KeyModel>, now: int)
    ensures
        forall|i: int| is_best(keys, now, i) <==> best_index(keys, now) == Some(i),
        best_index(keys, now) is None <==> all_blocked(keys, now),
{
    assert forall|i: int| is_best(keys, now, i) implies best_index(keys, now) == Some(i) by {
        let c = choose|c: int| is_best(keys, now, c);
        lemma_best_unique(keys, now, i, c);
    }
    if all_blocked(keys, now) {
        assert forall|i: int| !is_best(keys, now, i) by {
            if 0 <= i < keys.len() {
                assert(keys[i].blocked(now));
            }
        }
    } else {
        let found = lemma_some_best(keys, now, keys.len() as int);
        assert(keys.take(keys.len() as int) =~= keys);
        assert(is_best(keys, now, found->0));
    }
}

/// `found` is what a scan of the first `n` credentials finds: the best of
/// them, or nothing when they are all blocked.
pub open spec fn found_among(keys: Seq<KeyModel>, now: int, n: int, found: Option<int>) -> bool {
    match found {
        Some(b) => is_best(keys.take(n), now, b),
        None => all_blocked(keys.take(n), now),
    }
}

/// What a scan holds after it has looked at the credential at `n`, having
/// held `found` before: the credential at `n` where it is not blocked and
/// has been used less than what was found so far, and what was found so far
/// otherwise.
pub open spec fn scan_step(keys: Seq<KeyModel>, now: int, n: int, found: Option<int>) -> Option<
    int,
> {
    if keys[n].blocked(now) {
        found
    } else {
        match found {
            Some(b) => if keys[n].usage < keys[b].usage {
                Some(n)
            } else {
                Some(b)
            },
            None => Some(n),
        }
    }
}

/// One step of the scan keeps it right.
pub proof fn lemma_scan_step(keys: Seq<KeyModel>, now: int, n: int, found: Option<int>)
    requires
        0 <= n < keys.len(),
        found_among(keys, now, n, found),
    ensures
        found_among(keys, now, n + 1, scan_step(keys, now, n, found)),
{
    let seen = keys.take(n);
    let next = keys.take(n + 1);
    assert(next[n] == keys[n]);
    assert forall|j: int| 0 <= j < n implies (#[trigger] next[j]).blocked(now) == seen[j].blocked(
        now,
    ) && next[j].usage == seen[j].usage by {
        assert(next[j] == seen[j]);
    }
    match scan_step(keys, now, n, found) {
        Some(b) => {
            assert(is_best(next, now, b));
        },
        None => {
            assert forall|j: int| 0 <= j < next.len() implies (#[trigger] next[j]).blocked(now) by {
                if j < n {
                    assert(seen[j].blocked(now));
                }
            }
        },
    }
}

/// A scan of the first `n` credentials finds something, or they are all
/// blocked.
proof fn lemma_some_best(keys: Seq<KeyModel>, now: int, n: int) -> (found: Option<int>)
    requires
        0 <= n <= keys.len(),
    ensures
        found_among(keys, now, n, found),
    decreases n,
{
    if n == 0 {
        None
    } else {
        let before = lemma_some_best(keys, now, n - 1);
        lemma_scan_step(keys, now, n - 1, before);
        scan_step(keys, now, n - 1, before)
    }
}

/// Removal goes through the pool credential by credential: the last one
/// stays unless it carries the secret, after the same was done to those
/// before it.
pub proof fn lemma_removed_step(keys: Seq<KeyModel>, secret: Seq<char>)
    requires
        keys.len() > 0,
    ensures
        removed(keys, secret) == if keys.last().secret == secret {
            removed(keys.drop_last(), secret)
        } else {
            removed(keys.drop_last(), secret).push(keys.last())
        },
{
    reveal(Seq::filter);
}

/// What removal leaves: no credential with the secret, and every other
/// credential of the pool, none of them new. The pool gets shorter exactly
/// when it held the secret, and stays as it is when it did not.
pub proof fn lemma_removed(keys: Seq<KeyModel>, secret: Seq<char>)
    ensures
        !holds(removed(keys, secret), secret),
        removed(keys, secret).len() <= keys.len(),
        holds(keys, secret) <==> removed(keys, secret).len() < keys.len(),
        !holds(keys, secret) ==> removed(keys, secret) == keys,
        forall|i: int|
            0 <= i < removed(keys, secret).len() ==> keys.contains(
                #[trigger] removed(keys, secret)[i],
            ),
        forall|j: int|
            0 <= j < keys.len() && (#[trigger] keys[j]).secret != secret ==> removed(
                keys,
                secret,
            ).contains(keys[j]),
    decreases keys.len(),
{
    let rest = removed(keys, secret);
    if keys.len() == 0 {
        reveal(Seq::filter);
        assert(rest =~= keys);
    } else {
        let front = keys.drop_last();
        let last = keys.last();
        let front_rest = removed(front, secret);
        lemma_removed(front, secret);
        lemma_removed_step(keys, secret);
        assert forall|i: int| 0 <= i < rest.len() implies keys.contains(#[trigger] rest[i])
            && rest[i].secret != secret by {
            if i < front_rest.len() {
                assert(rest[i] == front_rest[i]);
                let j = choose|j: int| 0 <= j < front.len() && front[j] == front_rest[i];
                assert(keys[j] == rest[i]);
            } else {
                assert(rest[i] == last);
                assert(keys[keys.len() - 1] == last);
            }
        }
        assert forall|j: int| 0 <= j < keys.len() && (#[trigger] keys[j]).secret
            != secret implies rest.contains(keys[j]) by {
            if j < front.len() {
                assert(front[j] == keys[j]);
                let i = choose|i: int| 0 <= i < front_rest.len() && front_rest[i] == front[j];
                assert(rest[i] == keys[j]);
            } else {
                assert(rest[rest.len() - 1] == keys[j]);
            }
        }
        if holds(keys, secret) {
            let w = choose|w: int| 0 <= w < keys.len() && (#[trigger] keys[w]).secret == secret;
            if w < front.len() {
                assert(front[w].secret == secret);
            }
        } else {
            assert forall|j: int| 0 <= j < front.len() implies (#[trigger] front[j]).secret
                != secret by {
                assert(keys[j].secret != secret);
            }
            assert(last.secret != secret);
            assert(rest =~= keys);
        }
        if last.secret == secret {
            assert(keys[keys.len() - 1].secret == secret);
        }
    }
}

} // verus!
