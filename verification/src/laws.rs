//! What holds of the pool across operations.
//!
//! Each statement is about the model of the pool, which is what the
//! contracts of the registry speak of, so it holds of every run of the
//! registry.

use crate::model::{
    all_blocked, best_index, current_index, eligible, expire, headroom, holds, is_best,
    lemma_best_index, lemma_removed, lemma_removed_step, penalized, removed, select_fits,
    selected, KeyModel, QUOTA_WINDOW_MILLIS,
};
use vstd::prelude::*;

verus! {

/// One operation on the pool.
pub enum Op {
    /// A selection at a time.
    Select { now: int },
    /// A pick that falls back to the first credential, at a time.
    Current { now: int },
    /// A report that the quota of a secret is exhausted, at a time, with the
    /// selection that follows it.
    Ratelimit { secret: Seq<char>, now: int },
    /// The removal of a secret.
    Remove { secret: Seq<char> },
    /// A status snapshot at a time.
    Status { now: int },
}

/// The pool after one operation.
pub open spec fn step(keys: Seq<KeyModel>, op: Op) -> Seq<KeyModel> {
    match op {
        Op::Select { now } => selected(keys, now),
        Op::Current { now } => if keys.len() > 0 {
            let cleared = expire(keys, now);
            let i = current_index(keys, now);
            cleared.update(i, cleared[i].bumped())
        } else {
            keys
        },
        Op::Ratelimit { secret, now } => if holds(keys, secret) {
            selected(penalized(keys, secret, now), now)
        } else {
            keys
        },
        Op::Remove { secret } => removed(keys, secret),
        Op::Status { now } => expire(keys, now),
    }
}

/// The pool after a sequence of operations, the first of them first.
pub open spec fn run(keys: Seq<KeyModel>, ops: Seq<Op>) -> Seq<KeyModel>
    decreases ops.len(),
{
    if ops.len() == 0 {
        keys
    } else {
        run(step(keys, ops[0]), ops.drop_first())
    }
}

/// The pool never grows, and it shrinks by removal alone: when a secret
/// that it holds is removed.
pub proof fn lemma_only_removal_shrinks(keys: Seq<KeyModel>, op: Op)
    ensures
        step(keys, op).len() <= keys.len(),
        step(keys, op).len() < keys.len() <==> (op matches Op::Remove { secret } && holds(
            keys,
            secret,
        )),
{
    match op {
        Op::Select { now } => {
            lemma_secrets_of_selected(keys, now);
        },
        Op::Current { now } => {},
        Op::Ratelimit { secret, now } => {
            lemma_secrets_of_selected(penalized(keys, secret, now), now);
        },
        Op::Remove { secret } => {
            lemma_removed(keys, secret);
        },
        Op::Status { now } => {},
    }
}

/// Selection fails exactly when the pool is exhausted: every credential is
/// blocked, or there is none. A pick is never a blocked credential.
pub proof fn lemma_exhaustion(keys: Seq<KeyModel>, now: int)
    ensures
        best_index(keys, now) is None <==> all_blocked(keys, now),
        best_index(keys, now) matches Some(i) ==> 0 <= i < keys.len() && !keys[i].blocked(now),
        all_blocked(keys, now) ==> selected(keys, now) == expire(keys, now),
{
    lemma_best_index(keys, now);
    if let Some(i) = best_index(keys, now) {
        assert(is_best(keys, now, i));
    }
}

/// A credential whose block is older than the quota window can be selected
/// again, and the read that finds the block stale clears it.
///
/// With such a credential in the pool a selection succeeds, and its pick has
/// not been used more than that credential; where every other credential is
/// blocked, the pick is that credential. Both reads of the pool, a selection
/// and a status snapshot, leave the credential without a block.
pub proof fn lemma_expiry(keys: Seq<KeyModel>, now: int, i: int)
    requires
        0 <= i < keys.len(),
        keys[i].blocked_at matches Some(at) && now - at > QUOTA_WINDOW_MILLIS,
    ensures
        !keys[i].blocked(now),
        best_index(keys, now) matches Some(b) && keys[b].usage <= keys[i].usage,
        (forall|j: int| 0 <= j < keys.len() && j != i ==> (#[trigger] keys[j]).blocked(now))
            ==> best_index(keys, now) == Some(i),
        expire(keys, now)[i].blocked_at is None,
        selected(keys, now)[i].blocked_at is None,
{
    lemma_best_index(keys, now);
    assert(!keys[i].blocked(now));
    let b = best_index(keys, now)->0;
    assert(is_best(keys, now, b));
    if forall|j: int| 0 <= j < keys.len() && j != i ==> (#[trigger] keys[j]).blocked(now) {
        if b != i {
            assert(keys[b].blocked(now));
        }
    }
}

/// A read of the pool touches blocks in one way only: it clears the stale
/// ones.
///
/// After a selection and after a status snapshot at `now`, every credential
/// whose block was stale has none, every credential whose block stood has
/// the same block, and no credential has a block that it did not have. The
/// pool keeps its length, its order and its secrets; a snapshot keeps every
/// usage as well.
pub proof fn lemma_reads_clear_stale_blocks_only(keys: Seq<KeyModel>, now: int)
    ensures
        selected(keys, now).len() == keys.len(),
        expire(keys, now).len() == keys.len(),
        forall|i: int|
            0 <= i < keys.len() ==> {
                let after = #[trigger] selected(keys, now)[i];
                &&& after.secret == keys[i].secret
                &&& keys[i].blocked(now) ==> after.blocked_at == keys[i].blocked_at
                &&& !keys[i].blocked(now) ==> after.blocked_at is None
            },
        forall|i: int|
            0 <= i < keys.len() ==> {
                let after = #[trigger] expire(keys, now)[i];
                &&& after.secret == keys[i].secret
                &&& after.usage == keys[i].usage
                &&& keys[i].blocked(now) ==> after.blocked_at == keys[i].blocked_at
                &&& !keys[i].blocked(now) ==> after.blocked_at is None
            },
{
    lemma_best_index(keys, now);
    if let Some(b) = best_index(keys, now) {
        assert(is_best(keys, now, b));
    }
}

/// Penalizing a secret takes it out of selection for the length of the
/// quota window.
///
/// Let `secret` be penalized at `now`. At any time `then` at which the block
/// still stands, no selection picks a credential with that secret: not the
/// selection that penalizing ends with, and not the one after it. As long as
/// a credential with another secret is unblocked at `then`, both selections
/// succeed.
pub proof fn lemma_penalized_rebalances(
    keys: Seq<KeyModel>,
    secret: Seq<char>,
    now: int,
    then: int,
)
    requires
        then - now <= QUOTA_WINDOW_MILLIS,
    ensures
        best_index(penalized(keys, secret, now), then) matches Some(i) ==> penalized(
            keys,
            secret,
            now,
        )[i].secret != secret,
        best_index(selected(penalized(keys, secret, now), now), then) matches Some(i) ==> selected(
            penalized(keys, secret, now),
            now,
        )[i].secret != secret,
        (exists|j: int|
            0 <= j < keys.len() && (#[trigger] keys[j]).secret != secret && !keys[j].blocked(then))
            ==> best_index(penalized(keys, secret, now), then) is Some && best_index(
            selected(penalized(keys, secret, now), now),
            then,
        ) is Some,
{
    let blocked = penalized(keys, secret, now);
    let after = selected(blocked, now);
    lemma_best_index(blocked, now);
    lemma_best_index(blocked, then);
    lemma_best_index(after, then);
    lemma_secrets_of_selected(blocked, now);
    if let Some(b) = best_index(blocked, now) {
        assert(is_best(blocked, now, b));
    }
    if let Some(i) = best_index(blocked, then) {
        assert(is_best(blocked, then, i));
        if keys[i].secret == secret {
            assert(blocked[i].blocked(then));
        }
    }
    if let Some(i) = best_index(after, then) {
        assert(is_best(after, then, i));
        if keys[i].secret == secret {
            assert(blocked[i].blocked(now));
            assert(after[i] == blocked[i]);
            assert(after[i].blocked(then));
        }
    }
    if exists|j: int|
        0 <= j < keys.len() && (#[trigger] keys[j]).secret != secret && !keys[j].blocked(then) {
        let j = choose|j: int|
            0 <= j < keys.len() && (#[trigger] keys[j]).secret != secret && !keys[j].blocked(then);
        assert(blocked[j] == keys[j]);
        assert(!blocked[j].blocked(then));
        assert(after[j].blocked_at == blocked[j].expired(now).blocked_at);
        assert(!after[j].blocked(then));
    }
}

/// No operation brings a secret into the pool: one that the pool does not
/// hold before an operation, it does not hold after it.
pub proof fn lemma_step_adds_nothing(keys: Seq<KeyModel>, op: Op, secret: Seq<char>)
    requires
        !holds(keys, secret),
    ensures
        !holds(step(keys, op), secret),
{
    let next = step(keys, op);
    assert forall|i: int| 0 <= i < next.len() implies (#[trigger] next[i]).secret != secret by {
        match op {
            Op::Select { now } => {
                lemma_secrets_of_selected(keys, now);
                assert(keys[i].secret != secret);
            },
            Op::Current { now } => {
                assert(keys[i].secret != secret);
            },
            Op::Ratelimit { secret: other, now } => {
                if holds(keys, other) {
                    lemma_secrets_of_selected(penalized(keys, other, now), now);
                    assert(keys[i].secret != secret);
                } else {
                    assert(keys[i].secret != secret);
                }
            },
            Op::Remove { secret: other } => {
                lemma_removed(keys, other);
                assert(keys.contains(next[i]));
                let j = choose|j: int| 0 <= j < keys.len() && keys[j] == next[i];
                assert(keys[j].secret != secret);
            },
            Op::Status { now } => {
                assert(keys[i].secret != secret);
            },
        }
    }
}

/// A selection changes no secret and moves none.
pub proof fn lemma_secrets_of_selected(keys: Seq<KeyModel>, now: int)
    ensures
        selected(keys, now).len() == keys.len(),
        forall|i: int|
            0 <= i < keys.len() ==> (#[trigger] selected(keys, now)[i]).secret == keys[i].secret,
{
    lemma_best_index(keys, now);
    if let Some(b) = best_index(keys, now) {
        assert(is_best(keys, now, b));
    }
}

/// A secret that the pool does not hold is never picked, whatever is done
/// to the pool in between.
pub proof fn lemma_absent_never_picked(
    keys: Seq<KeyModel>,
    secret: Seq<char>,
    ops: Seq<Op>,
    now: int,
)
    requires
        !holds(keys, secret),
    ensures
        !holds(run(keys, ops), secret),
        best_index(run(keys, ops), now) matches Some(i) ==> run(keys, ops)[i].secret != secret,
        run(keys, ops).len() > 0 ==> run(keys, ops)[current_index(run(keys, ops), now)].secret
            != secret,
    decreases ops.len(),
{
    if ops.len() == 0 {
        lemma_best_index(keys, now);
        if let Some(i) = best_index(keys, now) {
            assert(is_best(keys, now, i));
            assert(keys[i].secret != secret);
        }
        if keys.len() > 0 {
            assert(keys[current_index(keys, now)].secret != secret);
        }
    } else {
        lemma_step_adds_nothing(keys, ops[0], secret);
        lemma_absent_never_picked(step(keys, ops[0]), secret, ops.drop_first(), now);
    }
}

/// Removal is terminal.
///
/// Once a secret is removed, the pool holds no credential with it, and no
/// selection made after any further operations picks one, whether or not
/// the secret was ever blocked and however often it stood in the pool.
pub proof fn lemma_removal_is_terminal(
    keys: Seq<KeyModel>,
    secret: Seq<char>,
    ops: Seq<Op>,
    now: int,
)
    ensures
        !holds(removed(keys, secret), secret),
        !holds(run(removed(keys, secret), ops), secret),
        best_index(run(removed(keys, secret), ops), now) matches Some(i) ==> run(
            removed(keys, secret),
            ops,
        )[i].secret != secret,
{
    lemma_removed(keys, secret);
    lemma_absent_never_picked(removed(keys, secret), secret, ops, now);
}

/// Removal is idempotent: removing a secret twice is removing it once, and
/// removing a secret that the pool does not hold changes nothing.
pub proof fn lemma_remove_idempotent(keys: Seq<KeyModel>, secret: Seq<char>)
    ensures
        !holds(keys, secret) ==> removed(keys, secret) == keys,
        removed(removed(keys, secret), secret) == removed(keys, secret),
{
    lemma_removed(keys, secret);
    lemma_removed(removed(keys, secret), secret);
}

/// A pool in which every counter has room takes every operation, at any
/// time and for any secret.
pub proof fn lemma_headroom_suffices(keys: Seq<KeyModel>, secret: Seq<char>, now: int)
    requires
        headroom(keys),
    ensures
        select_fits(keys, now),
        select_fits(penalized(keys, secret, now), now),
        select_fits(removed(keys, secret), now),
        keys.len() > 0 ==> keys[current_index(keys, now)].usage < u64::MAX,
{
    lemma_best_index(keys, now);
    if let Some(i) = best_index(keys, now) {
        assert(is_best(keys, now, i));
    }
    let blocked = penalized(keys, secret, now);
    let rest = removed(keys, secret);
    lemma_best_index(blocked, now);
    lemma_best_index(rest, now);
    lemma_removed(keys, secret);
    if let Some(i) = best_index(blocked, now) {
        assert(is_best(blocked, now, i));
        assert(keys[i].usage < u64::MAX);
    }
    if let Some(i) = best_index(rest, now) {
        assert(is_best(rest, now, i));
        assert(keys.contains(rest[i]));
        let j = choose|j: int| 0 <= j < keys.len() && keys[j] == rest[i];
        assert(keys[j].usage < u64::MAX);
    }
}

/// The pool is exhausted at `now` exactly when no credential is eligible.
pub proof fn lemma_none_eligible(keys: Seq<KeyModel>, now: int)
    ensures
        eligible(keys, now) == 0 <==> all_blocked(keys, now),
        eligible(keys, now) <= keys.len(),
    decreases keys.len(),
{
    if keys.len() > 0 {
        let front = keys.drop_last();
        lemma_none_eligible(front, now);
        if all_blocked(keys, now) {
            assert forall|i: int| 0 <= i < front.len() implies (#[trigger] front[i]).blocked(now) by {
                assert(keys[i].blocked(now));
            }
            assert(keys[keys.len() - 1].blocked(now));
        }
        if eligible(keys, now) == 0 {
            assert forall|i: int| 0 <= i < keys.len() implies (#[trigger] keys[i]).blocked(now) by {
                if i < front.len() {
                    assert(front[i].blocked(now));
                }
            }
        }
    }
}

/// Where every credential that was blocked before is blocked after, no
/// more credentials are eligible after than before; and fewer are, where
/// some credential is blocked after that was not before.
proof fn lemma_eligible_fewer(before: Seq<KeyModel>, after: Seq<KeyModel>, now: int)
    requires
        before.len() == after.len(),
        forall|i: int|
            0 <= i < before.len() && (#[trigger] before[i]).blocked(now) ==> (
            #[trigger] after[i]).blocked(now),
    ensures
        eligible(after, now) <= eligible(before, now),
        (exists|i: int|
            0 <= i < before.len() && !(#[trigger] before[i]).blocked(now) && after[i].blocked(now))
            ==> eligible(after, now) < eligible(before, now),
    decreases before.len(),
{
    if before.len() > 0 {
        let n = before.len() - 1;
        assert(before[n].blocked(now) ==> after[n].blocked(now));
        assert forall|i: int| 0 <= i < n && (#[trigger] before.drop_last()[i]).blocked(
            now,
        ) implies (#[trigger] after.drop_last()[i]).blocked(now) by {
            assert(before[i].blocked(now) ==> after[i].blocked(now));
        }
        lemma_eligible_fewer(before.drop_last(), after.drop_last(), now);
        if exists|i: int|
            0 <= i < before.len() && !(#[trigger] before[i]).blocked(now) && after[i].blocked(now) {
            let i = choose|i: int|
                0 <= i < before.len() && !(#[trigger] before[i]).blocked(now) && after[i].blocked(
                    now,
                );
            if i < n {
                assert(!before.drop_last()[i].blocked(now) && after.drop_last()[i].blocked(now));
            }
        }
    }
}

/// Removal leaves no more credentials eligible than there were; and fewer,
/// where a credential with the secret was eligible.
proof fn lemma_eligible_removed(keys: Seq<KeyModel>, secret: Seq<char>, now: int)
    ensures
        eligible(removed(keys, secret), now) <= eligible(keys, now),
        (exists|i: int|
            0 <= i < keys.len() && (#[trigger] keys[i]).secret == secret && !keys[i].blocked(now))
            ==> eligible(removed(keys, secret), now) < eligible(keys, now),
    decreases keys.len(),
{
    if keys.len() == 0 {
        lemma_removed(keys, secret);
    } else {
        let front = keys.drop_last();
        let last = keys.last();
        lemma_eligible_removed(front, secret, now);
        lemma_removed_step(keys, secret);
        if last.secret != secret {
            let rest = removed(front, secret).push(last);
            assert(rest.drop_last() =~= removed(front, secret));
            assert(rest.last() == last);
        }
        if exists|i: int|
            0 <= i < keys.len() && (#[trigger] keys[i]).secret == secret && !keys[i].blocked(now) {
            let i = choose|i: int|
                0 <= i < keys.len() && (#[trigger] keys[i]).secret == secret && !keys[i].blocked(
                    now,
                );
            if i < front.len() {
                assert(front[i].secret == secret && !front[i].blocked(now));
            } else {
                assert(keys[i] == last);
            }
        }
    }
}

/// Two pools whose credentials are blocked alike have equally many
/// eligible ones.
proof fn lemma_eligible_alike(left: Seq<KeyModel>, right: Seq<KeyModel>, now: int)
    requires
        left.len() == right.len(),
        forall|i: int|
            0 <= i < left.len() ==> (#[trigger] left[i]).blocked(now) == (#[trigger] right[i]).blocked(
                now,
            ),
    ensures
        eligible(left, now) == eligible(right, now),
    decreases left.len(),
{
    if left.len() > 0 {
        let n = left.len() - 1;
        assert(left[n].blocked(now) == right[n].blocked(now));
        assert forall|i: int| 0 <= i < n implies (#[trigger] left.drop_last()[i]).blocked(now) == (
        #[trigger] right.drop_last()[i]).blocked(now) by {
            assert(left[i].blocked(now) == right[i].blocked(now));
        }
        lemma_eligible_alike(left.drop_last(), right.drop_last(), now);
    }
}

/// A selection and a status snapshot leave the count of eligible
/// credentials as it is.
pub proof fn lemma_reads_keep_eligible(keys: Seq<KeyModel>, now: int)
    ensures
        eligible(expire(keys, now), now) == eligible(keys, now),
        eligible(selected(keys, now), now) == eligible(keys, now),
{
    lemma_eligible_alike(expire(keys, now), keys, now);
    lemma_best_index(keys, now);
    if let Some(b) = best_index(keys, now) {
        assert(is_best(keys, now, b));
    }
    lemma_eligible_alike(selected(keys, now), keys, now);
}

/// Each rotation strictly shrinks the set of eligible credentials.
///
/// Let a secret that a credential carries which is not blocked at `now` be
/// reported at `now`, as out of quota or as broken. After the registry has
/// penalized or removed it and made the selection that follows, fewer
/// credentials are eligible at `now` than before. So at any one time a
/// request makes no more calls than there are eligible credentials.
pub proof fn lemma_rotation_shrinks_pool(keys: Seq<KeyModel>, secret: Seq<char>, now: int)
    requires
        exists|i: int|
            0 <= i < keys.len() && (#[trigger] keys[i]).secret == secret && !keys[i].blocked(now),
    ensures
        eligible(keys, now) > 0,
        eligible(selected(penalized(keys, secret, now), now), now) < eligible(keys, now),
        eligible(selected(removed(keys, secret), now), now) < eligible(keys, now),
{
    let i = choose|i: int|
        0 <= i < keys.len() && (#[trigger] keys[i]).secret == secret && !keys[i].blocked(now);
    let blocked = penalized(keys, secret, now);
    assert forall|j: int| 0 <= j < keys.len() && (#[trigger] keys[j]).blocked(now) implies (
    #[trigger] blocked[j]).blocked(now) by {}
    assert(!keys[i].blocked(now) && blocked[i].blocked(now));
    lemma_eligible_fewer(keys, blocked, now);
    lemma_eligible_removed(keys, secret, now);
    lemma_reads_keep_eligible(blocked, now);
    lemma_reads_keep_eligible(removed(keys, secret), now);
}

} // verus!
