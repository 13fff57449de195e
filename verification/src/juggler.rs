//! The key registry: the pool of upstream credentials and their runtime
//! state.

use crate::clock::now_millis;
use crate::mask::{lemma_never_shown_whole, mask, shown};
use crate::laws::{lemma_penalized_rebalances, lemma_secrets_of_selected};
use crate::model::{
    all_blocked, best_index, current_index, expire, found_among, headroom, holds, is_best,
    lemma_best_index, lemma_removed, lemma_removed_step, lemma_scan_step, penalized, removed,
    scan_step, secrets, select_fits, selected, KeyModel, QUOTA_WINDOW_MILLIS,
};
use vstd::prelude::*;

verus! {

/// One upstream credential with its runtime state.
pub struct Key {
    /// The secret that is sent upstream.
    pub key: String,
    /// When the upstream last reported the quota of this credential as
    /// exhausted, in milliseconds since the Unix epoch.
    pub ratelimited_at: Option<i64>,
    /// Selections since the credential was last blocked.
    pub num_requests: u64,
}

impl View for Key {
    type V = KeyModel;

    open spec fn view(&self) -> KeyModel {
        KeyModel {
            secret: self.key@,
            blocked_at: match self.ratelimited_at {
                Some(at) => Some(at as int),
                None => None,
            },
            usage: self.num_requests as nat,
        }
    }
}

impl From<String> for Key {
    /// A credential that was never blocked and never used.
    fn from(key: String) -> (made: Key) {
        Key { key, ratelimited_at: None, num_requests: 0 }
    }
}

impl vstd::std_specs::convert::FromSpecImpl<String> for Key {
    open spec fn obeys_from_spec() -> bool {
        true
    }

    open spec fn from_spec(key: String) -> Key {
        Key { key, ratelimited_at: None, num_requests: 0 }
    }
}

/// What the status endpoint shows of one credential.
pub struct KeyStatus {
    /// The place of the credential in the pool.
    pub index: usize,
    /// The masked form of its secret.
    pub key_masked: String,
    /// Selections since the credential was last blocked.
    pub num_requests: u64,
    /// Whether the credential is inside its quota window.
    pub is_ratelimited: bool,
    /// Whole seconds until its block ends, for a blocked credential.
    pub seconds_remaining: Option<i64>,
}

/// A [`KeyStatus`] as the contracts see it.
pub struct KeyStatusModel {
    pub index: int,
    pub key_masked: Seq<char>,
    pub num_requests: nat,
    pub is_ratelimited: bool,
    pub seconds_remaining: Option<int>,
}

impl View for KeyStatus {
    type V = KeyStatusModel;

    open spec fn view(&self) -> KeyStatusModel {
        KeyStatusModel {
            index: self.index as int,
            key_masked: self.key_masked@,
            num_requests: self.num_requests as nat,
            is_ratelimited: self.is_ratelimited,
            seconds_remaining: match self.seconds_remaining {
                Some(secs) => Some(secs as int),
                None => None,
            },
        }
    }
}

/// The status of the credential at `i` in the pool `keys` at the time `now`.
pub open spec fn status_of(keys: Seq<KeyModel>, now: int, i: int) -> KeyStatusModel {
    KeyStatusModel {
        index: i,
        key_masked: shown(keys[i].secret),
        num_requests: keys[i].usage,
        is_ratelimited: keys[i].blocked(now),
        seconds_remaining: if keys[i].blocked(now) {
            Some(keys[i].millis_remaining(now) / 1000)
        } else {
            None
        },
    }
}

/// The status of every credential of the pool at the time `now`, in pool
/// order.
pub open spec fn statuses(keys: Seq<KeyModel>, now: int) -> Seq<KeyStatusModel> {
    Seq::new(keys.len(), |i: int| status_of(keys, now, i))
}

/// The models of a list of statuses, in order.
pub open spec fn status_views(list: Seq<KeyStatus>) -> Seq<KeyStatusModel> {
    Seq::new(list.len(), |i: int| list[i]@)
}

/// Whole seconds from `now` until a block recorded at `at` ends, for a block
/// that still stands.
fn seconds_left(now: i64, at: i64) -> (secs: i64)
    requires
        now - at <= QUOTA_WINDOW_MILLIS,
    ensures
        secs == (QUOTA_WINDOW_MILLIS - (now - at)) / 1000,
{
    let left: i128 = QUOTA_WINDOW_MILLIS as i128 - (now as i128 - at as i128);
    (left / 1000) as i64
}

/// The pool of credentials. Its view is the sequence of their models, in
/// pool order.
pub struct KeyJuggler {
    keys: Vec<Key>,
}

/// The models of a list of credentials, in order.
pub open spec fn models(keys: Seq<Key>) -> Seq<KeyModel> {
    Seq::new(keys.len(), |i: int| keys[i]@)
}

impl View for KeyJuggler {
    type V = Seq<KeyModel>;

    closed spec fn view(&self) -> Seq<KeyModel> {
        models(self.keys@)
    }
}

/// The texts of a list of strings, in order.
pub open spec fn texts(strings: Seq<String>) -> Seq<Seq<char>> {
    Seq::new(strings.len(), |i: int| strings[i]@)
}

/// Puts the secrets into a random order.
///
/// Calls `rand::seq::SliceRandom::shuffle` on the whole list with the
/// generator that `rand::rng` hands out. The contract claims what holds of
/// every outcome: the list holds the same texts as before, each as often as
/// before. Which order comes out is not stated. Neither call returns where
/// the operating system's random source fails, be it when the thread's
/// generator is first seeded or when it is seeded anew.
#[verifier::external_body]
fn shuffle(secrets: &mut Vec<String>)
    ensures
        texts(final(secrets)@).to_multiset() == texts(old(secrets)@).to_multiset(),
{
    rand::seq::SliceRandom::shuffle(secrets.as_mut_slice(), &mut rand::rng());
}

/// Whether strictly more than the quota window lies between `at` and `now`.
fn window_passed(now: i64, at: i64) -> (passed: bool)
    ensures
        passed == (now - at > QUOTA_WINDOW_MILLIS),
{
    now as i128 - at as i128 > QUOTA_WINDOW_MILLIS as i128
}

impl KeyJuggler {
    /// A pool of fresh credentials, one for each secret, in a random order.
    ///
    /// The order is drawn once, here, so that many processes started with
    /// the same list do not all favour its first secret.
    pub fn new(keys: Vec<String>) -> (made: KeyJuggler)
        ensures
            made@.len() == keys@.len(),
            secrets(made@).to_multiset() == texts(keys@).to_multiset(),
            forall|i: int|
                0 <= i < made@.len() ==> #[trigger] made@[i] == KeyModel::fresh(made@[i].secret),
    {
        let mut shuffled = keys;
        shuffle(&mut shuffled);
        let made = KeyJuggler::in_order(shuffled);
        proof {
            assert(secrets(made@) =~= texts(shuffled@));
            texts(shuffled@).to_multiset_ensures();
            texts(keys@).to_multiset_ensures();
        }
        made
    }

    /// A pool of fresh credentials, one for each secret, in the order given.
    pub fn in_order(keys: Vec<String>) -> (made: KeyJuggler)
        ensures
            made@ == Seq::new(keys@.len(), |i: int| KeyModel::fresh(keys@[i]@)),
    {
        let ghost wanted = Seq::new(keys@.len(), |i: int| KeyModel::fresh(keys@[i]@));
        let mut made: Vec<Key> = Vec::new();
        for key in it: keys
            invariant
                it.seq() == keys@,
                made@.len() == it.index(),
                wanted.len() == keys@.len(),
                forall|j: int|
                    0 <= j < wanted.len() ==> #[trigger] wanted[j] == KeyModel::fresh(keys@[j]@),
                forall|j: int| 0 <= j < made@.len() ==> (#[trigger] made@[j])@ == wanted[j],
        {
            made.push(Key::from(key));
        }
        let made = KeyJuggler { keys: made };
        assert(made@ =~= wanted);
        made
    }

    /// A pool that holds the given credentials as they are, in the order
    /// given.
    pub fn from_keys(keys: Vec<Key>) -> (made: KeyJuggler)
        ensures
            made@ == models(keys@),
    {
        KeyJuggler { keys }
    }

    /// Clears every stale block and finds the credential to use next.
    fn find_best_key(&mut self, now: i64) -> (best: Option<usize>)
        ensures
            final(self)@ == expire(old(self)@, now as int),
            match best {
                Some(i) => is_best(old(self)@, now as int, i as int),
                None => all_blocked(old(self)@, now as int),
            },
    {
        let ghost before = self@;
        let ghost mut found: Option<int> = None;
        let mut best_idx: Option<usize> = None;
        let mut best_score: u64 = 0;
        let mut idx: usize = 0;
        while idx < self.keys.len()
            invariant
                idx <= self.keys.len(),
                before.len() == self.keys.len(),
                forall|j: int|
                    0 <= j < idx ==> (#[trigger] self.keys@[j])@ == before[j].expired(now as int),
                forall|j: int| idx <= j < before.len() ==> (#[trigger] self.keys@[j])@ == before[j],
                found_among(before, now as int, idx as int, found),
                match best_idx {
                    Some(b) => found == Some(b as int) && best_score == before[b as int].usage,
                    None => found is None,
                },
            decreases self.keys.len() - idx,
        {
            let ghost entered = self.keys@;
            assert(entered[idx as int]@ == before[idx as int]);
            let blocked = match self.keys[idx].ratelimited_at {
                None => false,
                Some(at) => {
                    if window_passed(now, at) {
                        self.keys[idx].ratelimited_at = None;
                        false
                    } else {
                        true
                    }
                },
            };
            assert(self.keys@[idx as int]@ == before[idx as int].expired(now as int));
            assert(forall|j: int|
                0 <= j < before.len() && j != idx ==> self.keys@[j] == #[trigger] entered[j]);
            if !blocked {
                let score = self.keys[idx].num_requests;
                let better = match best_idx {
                    None => true,
                    Some(_) => score < best_score,
                };
                if better {
                    best_idx = Some(idx);
                    best_score = score;
                }
            }
            proof {
                lemma_scan_step(before, now as int, idx as int, found);
                found = scan_step(before, now as int, idx as int, found);
            }
            idx += 1;
        }
        proof {
            assert(before.take(idx as int) =~= before);
            assert(self@ =~= expire(before, now as int));
        }
        best_idx
    }

    /// Picks the credential to use next at the time `now` and counts the
    /// selection.
    ///
    /// Stale blocks are cleared first. The pick is the unblocked credential
    /// with the least usage, the first of them in pool order when several
    /// share it. The result is `None` exactly when every credential is
    /// blocked or the pool is empty.
    pub fn select_at(&mut self, now: i64) -> (picked: Option<&Key>)
        requires
            select_fits(old(self)@, now as int),
        ensures
            final(self)@ == selected(old(self)@, now as int),
            match best_index(old(self)@, now as int) {
                Some(i) => picked matches Some(key) && key@ == final(self)@[i],
                None => picked is None,
            },
            picked is None <==> all_blocked(old(self)@, now as int),
            final(self)@.len() == old(self)@.len(),
            forall|i: int|
                0 <= i < old(self)@.len() ==> (#[trigger] final(self)@[i]).blocked_at == old(
                    self,
                )@[i].expired(now as int).blocked_at,
    {
        proof {
            lemma_best_index(self@, now as int);
        }
        match self.find_best_key(now) {
            Some(best_idx) => {
                let ghost cleared = self@;
                assert(best_index(old(self)@, now as int) == Some(best_idx as int));
                assert(cleared.len() == old(self)@.len());
                assert(cleared.len() == self.keys@.len());
                assert(cleared[best_idx as int] == old(self)@[best_idx as int].expired(now as int));
                assert(self.keys@[best_idx as int]@ == cleared[best_idx as int]);
                self.keys[best_idx].num_requests += 1;
                assert(self@ =~= cleared.update(best_idx as int, cleared[best_idx as int].bumped()));
                Some(&self.keys[best_idx])
            },
            None => None,
        }
    }

    /// [`KeyJuggler::select_at`] at the current time.
    pub fn select(&mut self) -> (picked: Option<&Key>)
        requires
            forall|now: int| select_fits(old(self)@, now),
        ensures
            exists|now: int|
                {
                    &&& final(self)@ == selected(old(self)@, now)
                    &&& match #[trigger] best_index(old(self)@, now) {
                        Some(i) => picked matches Some(key) && key@ == final(self)@[i],
                        None => picked is None,
                    }
                },
    {
        let now = now_millis();
        self.select_at(now)
    }

    /// Records at the time `now` that the upstream reported the quota of the
    /// secret `key` as exhausted, and picks the credential to use instead.
    ///
    /// Every credential with that secret is blocked from `now` on and its
    /// usage starts again at zero; then a selection at `now` follows, as
    /// [`KeyJuggler::select_at`] makes it. So the result never carries the
    /// secret that was reported, and there is a result as long as a
    /// credential with another secret is unblocked. A secret that the pool
    /// does not hold changes nothing and yields `None`.
    pub fn ratelimit_at(&mut self, key: &str, now: i64) -> (picked: Option<&Key>)
        requires
            holds(old(self)@, key@) ==> select_fits(
                penalized(old(self)@, key@, now as int),
                now as int,
            ),
        ensures
            holds(old(self)@, key@) ==> final(self)@ == selected(
                penalized(old(self)@, key@, now as int),
                now as int,
            ),
            holds(old(self)@, key@) ==> match best_index(
                penalized(old(self)@, key@, now as int),
                now as int,
            ) {
                Some(i) => picked matches Some(next) && next@ == final(self)@[i],
                None => picked is None,
            },
            !holds(old(self)@, key@) ==> picked is None && final(self)@ == old(self)@,
            picked matches Some(next) ==> next@.secret != key@,
            holds(old(self)@, key@) && (exists|j: int|
                0 <= j < old(self)@.len() && (#[trigger] old(self)@[j]).secret != key@ && !old(
                    self,
                )@[j].blocked(now as int)) ==> picked is Some,
    {
        let ghost before = self@;
        let wanted = key.to_owned();
        let mut found = false;
        let mut idx: usize = 0;
        while idx < self.keys.len()
            invariant
                idx <= self.keys.len(),
                before.len() == self.keys.len(),
                wanted@ == key@,
                forall|j: int|
                    0 <= j < idx ==> (#[trigger] self.keys@[j])@ == penalized(
                        before,
                        key@,
                        now as int,
                    )[j],
                forall|j: int| idx <= j < before.len() ==> (#[trigger] self.keys@[j])@ == before[j],
                found <==> exists|j: int| 0 <= j < idx && (#[trigger] before[j]).secret == key@,
            decreases self.keys.len() - idx,
        {
            let ghost entered = self.keys@;
            assert(entered[idx as int]@ == before[idx as int]);
            if self.keys[idx].key == wanted {
                self.keys[idx].ratelimited_at = Some(now);
                self.keys[idx].num_requests = 0;
                found = true;
                assert(before[idx as int].secret == key@);
            }
            assert(forall|j: int|
                0 <= j < before.len() && j != idx ==> self.keys@[j] == #[trigger] entered[j]);
            idx += 1;
        }
        proof {
            assert(self@ =~= penalized(before, key@, now as int));
            lemma_penalized_rebalances(before, key@, now as int, now as int);
            lemma_secrets_of_selected(penalized(before, key@, now as int), now as int);
        }
        if found {
            self.select_at(now)
        } else {
            assert(self@ =~= before);
            None
        }
    }

    /// [`KeyJuggler::ratelimit_at`] at the current time.
    pub fn ratelimit(&mut self, key: &str) -> (picked: Option<&Key>)
        requires
            holds(old(self)@, key@) ==> forall|now: int| #[trigger]
                select_fits(penalized(old(self)@, key@, now), now),
        ensures
            !holds(old(self)@, key@) ==> picked is None && final(self)@ == old(self)@,
            picked matches Some(next) ==> next@.secret != key@,
            holds(old(self)@, key@) ==> exists|now: int|
                {
                    &&& final(self)@ == selected(penalized(old(self)@, key@, now), now)
                    &&& match #[trigger] best_index(penalized(old(self)@, key@, now), now) {
                        Some(i) => picked matches Some(next) && next@ == final(self)@[i],
                        None => picked is None,
                    }
                },
    {
        let now = now_millis();
        self.ratelimit_at(key, now)
    }

    /// Takes every credential with the secret `key` out of the pool for
    /// good; the others stay, in their order. A secret that the pool does
    /// not hold changes nothing.
    pub fn remove(&mut self, key: &str)
        ensures
            final(self)@ == removed(old(self)@, key@),
            !holds(final(self)@, key@),
            final(self)@.len() <= old(self)@.len(),
    {
        let ghost before = self@;
        let wanted = key.to_owned();
        let mut all: Vec<Key> = Vec::new();
        core::mem::swap(&mut self.keys, &mut all);
        let mut kept: Vec<Key> = Vec::new();
        proof {
            lemma_removed(before.take(0), key@);
            assert(models(kept@) =~= removed(before.take(0), key@));
        }
        for credential in it: all
            invariant
                wanted@ == key@,
                it.seq() == all@,
                before == models(all@),
                models(kept@) == removed(before.take(it.index() as int), key@),
        {
            let ghost seen = it.index() as int;
            proof {
                assert(credential@ == before[seen]);
                assert(before.take(seen + 1).drop_last() =~= before.take(seen));
                lemma_removed_step(before.take(seen + 1), key@);
            }
            if credential.key != wanted {
                let ghost so_far = kept@;
                kept.push(credential);
                assert(models(kept@) =~= models(so_far).push(before[seen]));
            }
        }
        self.keys = kept;
        proof {
            assert(before.take(before.len() as int) =~= before);
            lemma_removed(before, key@);
        }
    }

    /// Picks a credential at the time `now` even when the pool is exhausted,
    /// and counts the selection.
    ///
    /// The pick is that of [`KeyJuggler::select_at`] where it has one, and
    /// the first credential of the pool otherwise.
    pub fn current_at(&mut self, now: i64) -> (picked: &Key)
        requires
            old(self)@.len() > 0,
            old(self)@[current_index(old(self)@, now as int)].usage < u64::MAX,
        ensures
            final(self)@ == expire(old(self)@, now as int).update(
                current_index(old(self)@, now as int),
                expire(old(self)@, now as int)[current_index(old(self)@, now as int)].bumped(),
            ),
            picked@ == final(self)@[current_index(old(self)@, now as int)],
    {
        proof {
            lemma_best_index(self@, now as int);
        }
        let idx = match self.find_best_key(now) {
            Some(best_idx) => best_idx,
            None => 0,
        };
        let ghost cleared = self@;
        assert(idx == current_index(old(self)@, now as int));
        assert(cleared.len() == old(self)@.len());
        assert(cleared.len() == self.keys@.len());
        assert(cleared[idx as int] == old(self)@[idx as int].expired(now as int));
        assert(self.keys@[idx as int]@ == cleared[idx as int]);
        self.keys[idx].num_requests += 1;
        assert(self@ =~= cleared.update(idx as int, cleared[idx as int].bumped()));
        &self.keys[idx]
    }

    /// [`KeyJuggler::current_at`] at the current time.
    pub fn current(&mut self) -> (picked: &Key)
        requires
            old(self)@.len() > 0,
            forall|now: int| (#[trigger] old(self)@[current_index(old(self)@, now)]).usage < u64::MAX,
        ensures
            exists|now: int|
                {
                    &&& final(self)@ == expire(old(self)@, now).update(
                        #[trigger] current_index(old(self)@, now),
                        expire(old(self)@, now)[current_index(old(self)@, now)].bumped(),
                    )
                    &&& picked@ == final(self)@[current_index(old(self)@, now)]
                },
    {
        let now = now_millis();
        self.current_at(now)
    }

    /// The status of every credential at the time `now`, in pool order.
    ///
    /// The snapshot counts as a read: stale blocks are cleared. Usage is left
    /// as it is. Every pool has a snapshot, whatever its secrets are, and no
    /// entry of it shows a secret as it is.
    pub fn get_status_at(&mut self, now: i64) -> (list: Vec<KeyStatus>)
        ensures
            final(self)@ == expire(old(self)@, now as int),
            status_views(list@) == statuses(old(self)@, now as int),
            list@.len() == old(self)@.len(),
            forall|i: int|
                0 <= i < list@.len() ==> (#[trigger] list@[i]).key_masked@ != old(self)@[i].secret,
    {
        let ghost before = self@;
        let mut list: Vec<KeyStatus> = Vec::new();
        let mut idx: usize = 0;
        while idx < self.keys.len()
            invariant
                idx <= self.keys.len(),
                before.len() == self.keys.len(),
                forall|j: int|
                    0 <= j < idx ==> (#[trigger] self.keys@[j])@ == before[j].expired(now as int),
                forall|j: int| idx <= j < before.len() ==> (#[trigger] self.keys@[j])@ == before[j],
                list@.len() == idx,
                forall|j: int|
                    0 <= j < idx ==> (#[trigger] list@[j])@ == status_of(before, now as int, j),
            decreases self.keys.len() - idx,
        {
            let ghost entered = self.keys@;
            assert(entered[idx as int]@ == before[idx as int]);
            let seconds_remaining = match self.keys[idx].ratelimited_at {
                None => None,
                Some(at) => {
                    if window_passed(now, at) {
                        self.keys[idx].ratelimited_at = None;
                        None
                    } else {
                        Some(seconds_left(now, at))
                    }
                },
            };
            assert(forall|j: int|
                0 <= j < before.len() && j != idx ==> self.keys@[j] == #[trigger] entered[j]);
            assert(self.keys@[idx as int]@ == before[idx as int].expired(now as int));
            let status = KeyStatus {
                index: idx,
                key_masked: mask(self.keys[idx].key.as_str()),
                num_requests: self.keys[idx].num_requests,
                is_ratelimited: seconds_remaining.is_some(),
                seconds_remaining,
            };
            assert(status@ == status_of(before, now as int, idx as int));
            list.push(status);
            idx += 1;
        }
        proof {
            assert(self@ =~= expire(before, now as int));
            assert(status_views(list@) =~= statuses(before, now as int));
            assert forall|i: int| 0 <= i < list@.len() implies (#[trigger] list@[i]).key_masked@
                != before[i].secret by {
                lemma_never_shown_whole(before[i].secret);
                assert(list@[i]@ == status_of(before, now as int, i));
            }
        }
        list
    }

    /// [`KeyJuggler::get_status_at`] at the current time.
    pub fn get_status(&mut self) -> (list: Vec<KeyStatus>)
        ensures
            exists|now: int|
                {
                    &&& final(self)@ == #[trigger] expire(old(self)@, now)
                    &&& status_views(list@) == statuses(old(self)@, now)
                },
    {
        let now = now_millis();
        self.get_status_at(now)
    }

    /// Whether every counter of the pool can still be incremented.
    pub fn has_headroom(&self) -> (ok: bool)
        ensures
            ok == headroom(self@),
    {
        let mut idx: usize = 0;
        while idx < self.keys.len()
            invariant
                idx <= self.keys.len(),
                forall|j: int| 0 <= j < idx ==> (#[trigger] self@[j]).usage < u64::MAX,
            decreases self.keys.len() - idx,
        {
            if self.keys[idx].num_requests == u64::MAX {
                assert(self@[idx as int].usage == u64::MAX);
                return false;
            }
            assert(self@[idx as int].usage < u64::MAX);
            idx += 1;
        }
        true
    }

    /// The number of credentials in the pool.
    pub fn len(&self) -> (n: usize)
        ensures
            n == self@.len(),
    {
        self.keys.len()
    }
}

} // verus!
