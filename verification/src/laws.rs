//! The store's laws, stated over the same visible contents — the map
//! from live keys to newest values — that the operations' contracts
//! speak of, and proved once and for all.

use vstd::prelude::*;

use crate::replay::lemma_valid_replay_clean;
use crate::replay::recover_view;
use crate::replay::replay_clean;
use crate::store::KvStore;

verus! {

/// After an insert of `value` under `key`, a lookup of `key` sees
/// exactly `value`: `insert` leaves the visible contents with `key`
/// bound to `value`, which is what `get` then returns.
pub proof fn lemma_insert_then_get(pre: KvStore, post: KvStore, key: Seq<u8>, value: Seq<u8>)
    requires
        post@ == pre@.insert(key, value),
    ensures
        post@.dom().contains(key),
        post@[key] == value,
{
}

/// Last write wins: after two inserts under the same key, a lookup of
/// that key sees the second value, and every other key is untouched.
pub proof fn lemma_last_write_wins(
    pre: KvStore,
    mid: KvStore,
    post: KvStore,
    key: Seq<u8>,
    v1: Seq<u8>,
    v2: Seq<u8>,
)
    requires
        mid@ == pre@.insert(key, v1),
        post@ == mid@.insert(key, v2),
    ensures
        post@.dom().contains(key),
        post@[key] == v2,
        forall|k: Seq<u8>|
            k != key ==> (post@.dom().contains(k) <==> pre@.dom().contains(k)) && (
            pre@.dom().contains(k) ==> post@[k] == pre@[k]),
{
}

/// Durability: a well-formed store's log replays cleanly, so reopening
/// the same log bytes and running `load` is owed success, and the
/// reloaded store's visible contents — hence every `get` — are the
/// same as before it was closed.
pub proof fn lemma_recovery_reproduces(s: KvStore, reopened: KvStore)
    requires
        s.inv(),
        reopened@ == recover_view(s.log_view()),
    ensures
        replay_clean(s.log_view()),
        reopened@ == s@,
{
    s.lemma_inv_parts();
    lemma_valid_replay_clean(s.log_view());
}

} // verus!
