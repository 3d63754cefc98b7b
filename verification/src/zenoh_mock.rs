//! An in-process Zenoh session for tests: per-key subscriber and queryable
//! registries and a settable session state. The session decides who
//! receives a publish or a query; the caller then hands the payload to
//! those receivers, in registration order.

use vstd::prelude::*;
use vstd::string::StringExecFns;

use crate::zenoh_session::{SessionError, SessionState};

verus! {

/// One registration: its id, the key expression it listens on, and the
/// callback that receives what arrives there.
pub struct Registration<T> {
    /// Identifier handed out at registration.
    pub id: u64,
    /// Key expression, matched by exact equality.
    pub key: String,
    /// The receiving callback.
    pub handler: T,
}

/// The keys of a sequence of registrations.
pub open spec fn keys_of<T>(s: Seq<Registration<T>>) -> Seq<Seq<char>> {
    Seq::new(s.len(), |i: int| s[i].key@)
}

/// Positions, in increasing order, of the entries of `keys` equal to `key`.
pub open spec fn positions_with_key(keys: Seq<Seq<char>>, key: Seq<char>) -> Seq<usize>
    decreases keys.len(),
{
    if keys.len() == 0 {
        Seq::empty()
    } else {
        let earlier = positions_with_key(keys.drop_last(), key);
        if keys.last() == key {
            earlier.push((keys.len() - 1) as usize)
        } else {
            earlier
        }
    }
}

/// The positions of `key` in `keys` are exactly the indices whose key is
/// `key`, each once, in increasing order.
pub proof fn lemma_positions_with_key(keys: Seq<Seq<char>>, key: Seq<char>)
    requires
        keys.len() <= usize::MAX,
    ensures
        forall|j: int|
            0 <= j < positions_with_key(keys, key).len() ==> {
                let p = #[trigger] positions_with_key(keys, key)[j];
                p < keys.len() && keys[p as int] == key
            },
        forall|i: int|
            0 <= i < keys.len() && keys[i] == key ==> exists|j: int|
                0 <= j < positions_with_key(keys, key).len() && #[trigger] positions_with_key(
                    keys,
                    key,
                )[j] == i,
        forall|a: int, b: int|
            0 <= a < b < positions_with_key(keys, key).len() ==> #[trigger] positions_with_key(
                keys,
                key,
            )[a] < #[trigger] positions_with_key(keys, key)[b],
    decreases keys.len(),
{
    if keys.len() > 0 {
        let prefix = keys.drop_last();
        lemma_positions_with_key(prefix, key);
        let earlier = positions_with_key(prefix, key);
        let r = positions_with_key(keys, key);
        assert forall|i: int| 0 <= i < keys.len() && keys[i] == key implies exists|j: int|
            0 <= j < r.len() && #[trigger] r[j] == i by {
            if i < keys.len() - 1 {
                assert(prefix[i] == keys[i]);
                let j = choose|j: int| 0 <= j < earlier.len() && #[trigger] earlier[j] == i;
                assert(r[j] == earlier[j]);
            } else {
                assert(keys.last() == key);
                assert(r == earlier.push((keys.len() - 1) as usize));
                assert(r[earlier.len() as int] == i);
            }
        }
    }
}

/// A subscriber that was torn down receives no later publish: no position
/// that a publish decides on points at a registration with its id.
pub proof fn lemma_removed_id_not_targeted<T>(entries: Seq<Registration<T>>, id: u64, key: Seq<char>)
    requires
        entries.len() <= usize::MAX,
        !has_id(entries, id),
    ensures
        forall|j: int|
            0 <= j < positions_with_key(keys_of(entries), key).len() ==> entries[#[trigger] positions_with_key(
                keys_of(entries),
                key,
            )[j] as int].id != id,
{
    lemma_positions_with_key(keys_of(entries), key);
    assert forall|j: int|
        0 <= j < positions_with_key(keys_of(entries), key).len() implies entries[#[trigger] positions_with_key(
            keys_of(entries),
            key,
        )[j] as int].id != id by {
        let p = positions_with_key(keys_of(entries), key)[j];
        assert(0 <= p < entries.len());
        if entries[p as int].id == id {
            assert(has_id(entries, id));
        }
    }
}

/// A registration just added on `key` is among the receivers of every
/// later publish on `key`: its position is one of the chosen positions.
pub proof fn lemma_new_registration_targeted<T>(entries: Seq<Registration<T>>, added: Registration<T>)
    requires
        entries.len() < usize::MAX,
    ensures
        positions_with_key(keys_of(entries.push(added)), added.key@).contains(entries.len() as usize),
{
    let ks = keys_of(entries.push(added));
    assert(ks.drop_last() =~= keys_of(entries));
    assert(ks.last() == added.key@);
    let r = positions_with_key(ks, added.key@);
    assert(r == positions_with_key(keys_of(entries), added.key@).push(entries.len() as usize));
    assert(r[r.len() - 1] == entries.len() as usize);
}

/// Whether some registration of `s` carries `id`.
pub open spec fn has_id<T>(s: Seq<Registration<T>>, id: u64) -> bool {
    exists|i: int| 0 <= i < s.len() && #[trigger] s[i].id == id
}

/// Registrations with pairwise distinct ids, all below `next`, which is positive.
pub open spec fn ids_fresh<T>(s: Seq<Registration<T>>, next: u64) -> bool {
    &&& next >= 1
    &&& forall|i: int| 0 <= i < s.len() ==> 1 <= #[trigger] s[i].id < next
    &&& forall|i: int, j: int| 0 <= i < j < s.len() ==> #[trigger] s[i].id != #[trigger] s[j].id
}

/// Registrations of one kind, with the counter their ids come from.
pub struct Registry<T> {
    entries: Vec<Registration<T>>,
    next_id: u64,
}

impl<T> Registry<T> {
    /// The registrations, oldest first.
    pub closed spec fn entries(&self) -> Seq<Registration<T>> {
        self.entries@
    }

    /// The id the next registration will get.
    pub closed spec fn next_id(&self) -> u64 {
        self.next_id
    }

    /// Ids are distinct and below the counter.
    #[verifier::type_invariant]
    spec fn wf(&self) -> bool {
        ids_fresh(self.entries@, self.next_id)
    }

    fn new() -> (r: Self)
        ensures
            r.entries() == Seq::<Registration<T>>::empty(),
            r.next_id() == 1,
    {
        Registry { entries: Vec::new(), next_id: 1 }
    }

    /// The id the next registration will get.
    pub fn peek_next_id(&self) -> (r: u64)
        ensures
            r == self.next_id(),
    {
        self.next_id
    }

    fn add(&mut self, key: String, handler: T) -> (id: u64)
        requires
            old(self).next_id() < u64::MAX,
        ensures
            id == old(self).next_id(),
            final(self).next_id() == old(self).next_id() + 1,
            final(self).entries() == old(self).entries().push(
                Registration { id, key, handler },
            ),
    {
        proof {
            use_type_invariant(&*self);
        }
        let id = self.next_id;
        let mut entries: Vec<Registration<T>> = Vec::new();
        std::mem::swap(&mut entries, &mut self.entries);
        entries.push(Registration { id, key, handler });
        proof {
            assert forall|i: int| 0 <= i < entries@.len() implies 1 <= #[trigger] entries@[i].id < id + 1 by {
                if i < entries@.len() - 1 {
                    assert(entries@[i] == old(self).entries@[i]);
                }
            }
            assert forall|i: int, j: int| 0 <= i < j < entries@.len() implies #[trigger] entries@[i].id
                != #[trigger] entries@[j].id by {
                assert(entries@[i] == old(self).entries@[i]);
                if j < entries@.len() - 1 {
                    assert(entries@[j] == old(self).entries@[j]);
                }
            }
        }
        self.next_id = id + 1;
        self.entries = entries;
        id
    }

    fn remove_id(&mut self, id: u64)
        ensures
            final(self).next_id() == old(self).next_id(),
            has_id(old(self).entries(), id) ==> exists|i: int|
                0 <= i < old(self).entries().len() && old(self).entries()[i].id == id
                    && final(self).entries() == old(self).entries().remove(i),
            !has_id(old(self).entries(), id) ==> final(self).entries() == old(self).entries(),
            !has_id(final(self).entries(), id),
    {
        proof {
            use_type_invariant(&*self);
        }
        let mut i: usize = 0;
        while i < self.entries.len()
            invariant
                i <= self.entries@.len(),
                self.entries@ == old(self).entries@,
                self.next_id == old(self).next_id,
                ids_fresh(old(self).entries@, old(self).next_id),
                forall|k: int| 0 <= k < i ==> (#[trigger] self.entries@[k]).id != id,
            decreases self.entries@.len() - i,
        {
            if self.entries[i].id == id {
                let ghost before = self.entries@;
                let mut entries: Vec<Registration<T>> = Vec::new();
                std::mem::swap(&mut entries, &mut self.entries);
                let _gone = entries.remove(i);
                proof {
                    let after = entries@;
                    assert(after =~= before.remove(i as int));
                    assert forall|k: int| 0 <= k < after.len() implies (if k < i {
                        after[k] == before[k]
                    } else {
                        after[k] == before[k + 1]
                    }) by {}
                    assert forall|k: int| 0 <= k < after.len() implies 1 <= #[trigger] after[k].id
                        < self.next_id by {
                        if k >= i {
                            assert(after[k] == before[k + 1]);
                        }
                    }
                    assert forall|a: int, b: int| 0 <= a < b < after.len() implies #[trigger] after[a].id
                        != #[trigger] after[b].id by {
                        let a0 = if a < i { a } else { a + 1 };
                        let b0 = if b < i { b } else { b + 1 };
                        assert(after[a] == before[a0]);
                        assert(after[b] == before[b0]);
                    }
                    assert forall|k: int| 0 <= k < after.len() implies #[trigger] after[k].id != id by {
                        let k0 = if k < i { k } else { k + 1 };
                        assert(after[k] == before[k0]);
                    }
                }
                self.entries = entries;
                return;
            }
            i = i + 1;
        }
    }

    fn positions(&self, key: &String) -> (r: Vec<usize>)
        ensures
            r@ == positions_with_key(keys_of(self.entries()), key@),
    {
        let mut r: Vec<usize> = Vec::new();
        let mut i: usize = 0;
        while i < self.entries.len()
            invariant
                i <= self.entries@.len(),
                r@ == positions_with_key(keys_of(self.entries@).take(i as int), key@),
            decreases self.entries@.len() - i,
        {
            proof {
                let ks = keys_of(self.entries@);
                assert(ks.take(i + 1).drop_last() =~= ks.take(i as int));
                assert(ks.take(i + 1).last() == self.entries@[i as int].key@);
            }
            if self.entries[i].key == *key {
                r.push(i);
            }
            i = i + 1;
        }
        proof {
            assert(keys_of(self.entries@).take(i as int) =~= keys_of(self.entries@));
        }
        r
    }

    /// The registrations, oldest first.
    pub fn as_slice(&self) -> (r: &[Registration<T>])
        ensures
            r@ == self.entries(),
            ids_fresh(r@, self.next_id()),
    {
        proof {
            use_type_invariant(self);
        }
        self.entries.as_slice()
    }

    /// Number of registrations.
    pub fn len(&self) -> (r: usize)
        ensures
            r == self.entries().len(),
    {
        self.entries.len()
    }
}

/// The reason a session that is not alive gives for refusing work.
pub open spec fn not_alive_reason() -> Seq<char> {
    "mock session not alive"@
}

fn not_alive() -> (e: SessionError)
    ensures
        e matches SessionError::NotAlive { reason } && reason@ == not_alive_reason(),
{
    SessionError::NotAlive { reason: String::from_str("mock session not alive") }
}

/// In-process session: subscribers of type `S`, queryables of type `Q`.
pub struct MockZenohSession<S, Q> {
    state: SessionState,
    subscribers: Registry<S>,
    queryables: Registry<Q>,
}

impl<S, Q> MockZenohSession<S, Q> {
    /// The session's state.
    pub closed spec fn current_state(&self) -> SessionState {
        self.state
    }

    /// The subscriber registry.
    pub closed spec fn subscriber_registry(&self) -> Registry<S> {
        self.subscribers
    }

    /// The queryable registry.
    pub closed spec fn queryable_registry(&self) -> Registry<Q> {
        self.queryables
    }

    /// A session in the `Alive` state with no subscriber and no queryable;
    /// both kinds of ids start at 1.
    pub fn new() -> (r: Self)
        ensures
            r.current_state() == SessionState::Alive,
            r.subscriber_registry().entries() == Seq::<Registration<S>>::empty(),
            r.subscriber_registry().next_id() == 1,
            r.queryable_registry().entries() == Seq::<Registration<Q>>::empty(),
            r.queryable_registry().next_id() == 1,
    {
        MockZenohSession { state: SessionState::Alive, subscribers: Registry::new(), queryables: Registry::new() }
    }

    /// Force the session into `state`; the registries are kept.
    pub fn set_state(&mut self, state: SessionState)
        ensures
            final(self).current_state() == state,
            final(self).subscriber_registry() == old(self).subscriber_registry(),
            final(self).queryable_registry() == old(self).queryable_registry(),
    {
        self.state = state;
    }

    /// The session's state.
    pub fn state(&self) -> (r: SessionState)
        ensures
            r == self.current_state(),
    {
        self.state.clone()
    }

    /// Decide a publish on `key`: when the session is alive, the positions
    /// of the subscribers on `key`, in registration order; otherwise the
    /// not-alive error.
    pub fn publish(&self, key: &String) -> (r: Result<Vec<usize>, SessionError>)
        ensures
            r is Err <==> !(self.current_state() is Alive),
            r matches Err(e) ==> (e matches SessionError::NotAlive { reason } && reason@
                == not_alive_reason()),
            r matches Ok(p) ==> p@ == positions_with_key(
                keys_of(self.subscriber_registry().entries()),
                key@,
            ),
    {
        if !self.state.is_alive() {
            return Err(not_alive());
        }
        Ok(self.subscribers.positions(key))
    }

    /// Register a subscriber on `key`; returns its id.
    pub fn subscribe(&mut self, key: String, sink: S) -> (id: u64)
        requires
            old(self).subscriber_registry().next_id() < u64::MAX,
        ensures
            id == old(self).subscriber_registry().next_id(),
            final(self).subscriber_registry().next_id() == id + 1,
            final(self).subscriber_registry().entries() == old(self).subscriber_registry().entries().push(Registration { id, key, handler: sink }),
            final(self).current_state() == old(self).current_state(),
            final(self).queryable_registry() == old(self).queryable_registry(),
    {
        self.subscribers.add(key, sink)
    }

    /// Tear down the subscription with id `id`, if there is one.
    pub fn unsubscribe(&mut self, id: u64)
        ensures
            final(self).subscriber_registry().next_id() == old(self).subscriber_registry().next_id(),
            has_id(old(self).subscriber_registry().entries(), id) ==> exists|i: int|
                0 <= i < old(self).subscriber_registry().entries().len() && old(self).subscriber_registry().entries()[i].id == id && final(self).subscriber_registry().entries() == old(self).subscriber_registry().entries().remove(i),
            !has_id(old(self).subscriber_registry().entries(), id) ==> final(self).subscriber_registry().entries() == old(self).subscriber_registry().entries(),
            !has_id(final(self).subscriber_registry().entries(), id),
            final(self).current_state() == old(self).current_state(),
            final(self).queryable_registry() == old(self).queryable_registry(),
    {
        self.subscribers.remove_id(id);
    }

    /// The subscribers, oldest first.
    pub fn subscribers(&self) -> (r: &[Registration<S>])
        ensures
            r@ == self.subscriber_registry().entries(),
            ids_fresh(r@, self.subscriber_registry().next_id()),
    {
        self.subscribers.as_slice()
    }

    /// Number of live subscriptions.
    pub fn subscriber_count(&self) -> (r: usize)
        ensures
            r == self.subscriber_registry().entries().len(),
    {
        self.subscribers.len()
    }

    /// The id the next subscription will get.
    pub fn next_subscription_id(&self) -> (r: u64)
        ensures
            r == self.subscriber_registry().next_id(),
    {
        self.subscribers.peek_next_id()
    }

    /// Decide a query on `key`: when the session is alive, the positions of
    /// the queryables on `key`, in registration order; otherwise the
    /// not-alive error.
    pub fn query(&self, key: &String) -> (r: Result<Vec<usize>, SessionError>)
        ensures
            r is Err <==> !(self.current_state() is Alive),
            r matches Err(e) ==> (e matches SessionError::NotAlive { reason } && reason@
                == not_alive_reason()),
            r matches Ok(p) ==> p@ == positions_with_key(
                keys_of(self.queryable_registry().entries()),
                key@,
            ),
    {
        if !self.state.is_alive() {
            return Err(not_alive());
        }
        Ok(self.queryables.positions(key))
    }

    /// Register a queryable on `key`; returns its id.
    pub fn declare_queryable(&mut self, key: String, handler: Q) -> (id: u64)
        requires
            old(self).queryable_registry().next_id() < u64::MAX,
        ensures
            id == old(self).queryable_registry().next_id(),
            final(self).queryable_registry().next_id() == id + 1,
            final(self).queryable_registry().entries() == old(self).queryable_registry().entries().push(Registration { id, key, handler }),
            final(self).current_state() == old(self).current_state(),
            final(self).subscriber_registry() == old(self).subscriber_registry(),
    {
        self.queryables.add(key, handler)
    }

    /// Tear down the queryable with id `id`, if there is one.
    pub fn undeclare_queryable(&mut self, id: u64)
        ensures
            final(self).queryable_registry().next_id() == old(self).queryable_registry().next_id(),
            has_id(old(self).queryable_registry().entries(), id) ==> exists|i: int|
                0 <= i < old(self).queryable_registry().entries().len() && old(self).queryable_registry().entries()[i].id == id && final(self).queryable_registry().entries() == old(self).queryable_registry().entries().remove(i),
            !has_id(old(self).queryable_registry().entries(), id) ==> final(self).queryable_registry().entries() == old(self).queryable_registry().entries(),
            !has_id(final(self).queryable_registry().entries(), id),
            final(self).current_state() == old(self).current_state(),
            final(self).subscriber_registry() == old(self).subscriber_registry(),
    {
        self.queryables.remove_id(id);
    }

    /// The queryables, oldest first.
    pub fn queryables(&self) -> (r: &[Registration<Q>])
        ensures
            r@ == self.queryable_registry().entries(),
            ids_fresh(r@, self.queryable_registry().next_id()),
    {
        self.queryables.as_slice()
    }

    /// Number of declared queryables.
    pub fn queryable_count(&self) -> (r: usize)
        ensures
            r == self.queryable_registry().entries().len(),
    {
        self.queryables.len()
    }

    /// The id the next queryable will get.
    pub fn next_queryable_id(&self) -> (r: u64)
        ensures
            r == self.queryable_registry().next_id(),
    {
        self.queryables.peek_next_id()
    }
}

impl<S, Q> Default for MockZenohSession<S, Q> {
    /// Same as `new`.
    fn default() -> (r: Self)
        ensures
            r.current_state() == SessionState::Alive,
            r.subscriber_registry().entries() == Seq::<Registration<S>>::empty(),
            r.subscriber_registry().next_id() == 1,
            r.queryable_registry().entries() == Seq::<Registration<Q>>::empty(),
            r.queryable_registry().next_id() == 1,
    {
        MockZenohSession::new()
    }
}

/// Completion of one query fanned out to several queryables: the caller's
/// done callback fires once, when the last queryable terminates, or at once
/// when no queryable matched.
pub struct QueryFanIn {
    pending: usize,
}

impl QueryFanIn {
    /// Queryables that have not terminated yet.
    pub closed spec fn pending(&self) -> nat {
        self.pending as nat
    }

    /// A fan-in waiting for `queryables` terminations.
    pub fn new(queryables: usize) -> (r: Self)
        ensures
            r.pending() == queryables,
    {
        QueryFanIn { pending: queryables }
    }

    /// Whether the done callback fires at once because nothing matched.
    pub fn completes_immediately(&self) -> (r: bool)
        ensures
            r == (self.pending() == 0),
    {
        self.pending == 0
    }

    /// Record one termination; true exactly when it is the last one, and
    /// the done callback fires now. Terminations beyond the last change
    /// nothing.
    pub fn terminate(&mut self) -> (fire: bool)
        ensures
            fire == terminate_fires(old(self).pending()),
            final(self).pending() == pending_after(old(self).pending(), 1),
    {
        if self.pending == 0 {
            return false;
        }
        self.pending = self.pending - 1;
        self.pending == 0
    }
}

/// Whether a termination fires the done callback when `pending` queryables
/// have not terminated yet.
pub open spec fn terminate_fires(pending: nat) -> bool {
    pending == 1
}

/// Queryables still pending after `k` terminations, starting from `pending`.
pub open spec fn pending_after(pending: nat, k: nat) -> nat {
    if k >= pending {
        0
    } else {
        (pending - k) as nat
    }
}

/// How many of `k` successive terminations fire, starting from `pending`.
pub open spec fn fires_in(pending: nat, k: nat) -> nat
    decreases k,
{
    if k == 0 {
        0
    } else {
        fires_in(pending, (k - 1) as nat) + if terminate_fires(
            pending_after(pending, (k - 1) as nat),
        ) {
            1nat
        } else {
            0nat
        }
    }
}

/// For a query fanned out to `n > 0` queryables, the done callback fires
/// exactly once over any number of terminations that reaches `n`, and not
/// before the `n`-th: `k` terminations fire it once if `k >= n`, never if
/// `k < n`.
pub proof fn lemma_fan_in_fires_once(n: nat, k: nat)
    requires
        n > 0,
    ensures
        fires_in(n, k) == (if k >= n { 1nat } else { 0nat }),
    decreases k,
{
    if k > 0 {
        lemma_fan_in_fires_once(n, (k - 1) as nat);
    }
}

} // verus!
