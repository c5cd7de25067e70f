//! Distributed locks as leases in logical time, protected by fencing tokens.
//!
//! A lock is granted for a lease that ends at a logical time; each grant of
//! a resource carries a fencing token one higher than the previous grant of
//! that resource, so operations presenting an older token are refused.

use vstd::prelude::*;
use crate::text::{text_before, text_eq, text_lt, lemma_text_order};

verus! {

/// Stable client identifier.
#[derive(Clone, Copy, Debug, PartialEq, Eq, PartialOrd, Ord, Hash)]
pub struct ClientId(pub u64);

/// Stable identifier of a protected resource.
#[derive(Clone, Copy, Debug, PartialEq, Eq, PartialOrd, Ord, Hash)]
pub struct ResourceId(pub &'static str);

/// Logical time driven by the scenario.
#[derive(Clone, Copy, Debug, PartialEq, Eq, PartialOrd, Ord, Hash)]
pub struct LogicalTime(pub u64);

/// Logical length of a lease.
#[derive(Clone, Copy, Debug, PartialEq, Eq, PartialOrd, Ord, Hash)]
pub struct LeaseDuration(pub u64);

/// Monotonic token used to refuse stale operations.
#[derive(Clone, Copy, Debug, PartialEq, Eq, PartialOrd, Ord, Hash)]
pub struct FencingToken(pub u64);

/// An observable lock grant.
#[derive(Clone, Copy, Debug, PartialEq, Eq)]
pub struct LockGrant {
    /// Owning client.
    pub owner: ClientId,
    /// Protected resource.
    pub resource: ResourceId,
    /// Fencing token of the grant.
    pub token: FencingToken,
    /// Logical time at which the lease ends.
    pub expires_at: LogicalTime,
}

/// Observable event of the lock manager.
#[derive(Clone, Debug, PartialEq, Eq)]
pub enum DistributedLockEvent {
    /// A client acquired a lock.
    LockAcquired {
        /// Owning client.
        owner: ClientId,
        /// Protected resource.
        resource: ResourceId,
        /// Fencing token granted.
        token: FencingToken,
        /// End of the lease.
        expires_at: LogicalTime,
    },
    /// The owner renewed its lock.
    LockRenewed {
        /// Owning client.
        owner: ClientId,
        /// Protected resource.
        resource: ResourceId,
        /// Current fencing token.
        token: FencingToken,
        /// New end of the lease.
        expires_at: LogicalTime,
    },
    /// The owner released its lock.
    LockReleased {
        /// Owning client.
        owner: ClientId,
        /// Protected resource.
        resource: ResourceId,
        /// Released token.
        token: FencingToken,
    },
    /// A lock expired as logical time advanced.
    LockExpired {
        /// Client that owned it.
        owner: ClientId,
        /// Protected resource.
        resource: ResourceId,
        /// Token that stopped being active.
        token: FencingToken,
        /// Logical time at which it expired.
        expired_at: LogicalTime,
    },
}

/// Explicit error of the lock manager.
#[derive(Clone, Debug, PartialEq, Eq)]
pub enum DistributedLockError {
    /// A lease must last longer than zero.
    InvalidLeaseDuration(LeaseDuration),
    /// The resource has an active owner.
    ResourceBusy {
        /// Resource asked for.
        resource: ResourceId,
        /// Current owner.
        owner: ClientId,
        /// End of its lease.
        expires_at: LogicalTime,
    },
    /// No active lock on the resource.
    LockNotHeld(ResourceId),
    /// The client is not the current owner.
    NotLockOwner {
        /// Protected resource.
        resource: ResourceId,
        /// Current owner.
        expected: ClientId,
        /// Client that tried.
        attempted: ClientId,
    },
    /// The token is not the active one.
    StaleFencingToken {
        /// Protected resource.
        resource: ResourceId,
        /// Active token.
        current: FencingToken,
        /// Token tried.
        attempted: FencingToken,
    },
}

/// The name of a resource, as characters.
pub open spec fn name(r: ResourceId) -> Seq<char> {
    r.0@
}

/// Grants ordered strictly by resource name.
pub open spec fn ordered_by_resource(s: Seq<LockGrant>) -> bool {
    forall|i: int, j: int| 0 <= i < j < s.len() ==> text_before(name(#[trigger] s[i].resource), name(#[trigger] s[j].resource))
}

/// Position of the lock on the resource named `n`, or -1.
pub open spec fn lock_index(s: Seq<LockGrant>, n: Seq<char>) -> int {
    if exists|i: int| 0 <= i < s.len() && name(#[trigger] s[i].resource) == n {
        choose|i: int| 0 <= i < s.len() && name(#[trigger] s[i].resource) == n
    } else {
        -1
    }
}

/// Position of the last token recorded for the resource named `n`, or -1.
pub open spec fn token_index(t: Seq<(ResourceId, u64)>, n: Seq<char>) -> int
    decreases t.len(),
{
    if t.len() == 0 {
        -1
    } else if name(t.last().0) == n {
        t.len() - 1
    } else {
        token_index(t.drop_last(), n)
    }
}

/// The next fencing token of a resource: one past its last, or one.
pub open spec fn next_token(t: Seq<(ResourceId, u64)>, n: Seq<char>) -> int {
    if token_index(t, n) >= 0 {
        t[token_index(t, n)].1 + 1
    } else {
        1
    }
}

/// The token table once `r` holds token `v`.
pub open spec fn set_token(t: Seq<(ResourceId, u64)>, r: ResourceId, v: u64) -> Seq<(ResourceId, u64)> {
    if token_index(t, name(r)) >= 0 {
        t.update(token_index(t, name(r)), (r, v))
    } else {
        t.push((r, v))
    }
}

/// `g` inserted among grants ordered by resource name.
pub open spec fn insert_sorted(s: Seq<LockGrant>, g: LockGrant) -> Seq<LockGrant>
    decreases s.len(),
{
    if s.len() == 0 {
        seq![g]
    } else if text_before(name(s.last().resource), name(g.resource)) {
        s.push(g)
    } else {
        insert_sorted(s.drop_last(), g).push(s.last())
    }
}

/// The grants still active at time `t`, in order.
pub open spec fn still_active(s: Seq<LockGrant>, t: u64) -> Seq<LockGrant>
    decreases s.len(),
{
    if s.len() == 0 {
        s
    } else if s.last().expires_at.0 > t {
        still_active(s.drop_last(), t).push(s.last())
    } else {
        still_active(s.drop_last(), t)
    }
}

/// The expiry event of a grant.
pub open spec fn expiry_event(g: LockGrant) -> DistributedLockEvent {
    DistributedLockEvent::LockExpired {
        owner: g.owner,
        resource: g.resource,
        token: g.token,
        expired_at: g.expires_at,
    }
}

/// The expiry events of the grants whose lease ended by time `t`, in order.
pub open spec fn expiry_events(s: Seq<LockGrant>, t: u64) -> Seq<DistributedLockEvent>
    decreases s.len(),
{
    if s.len() == 0 {
        Seq::empty()
    } else if s.last().expires_at.0 > t {
        expiry_events(s.drop_last(), t)
    } else {
        expiry_events(s.drop_last(), t).push(expiry_event(s.last()))
    }
}

/// Mathematical state of a [`DistributedLockManager`].
pub struct LockManagerView {
    /// Current logical time.
    pub now: u64,
    /// The lock grants, ordered by resource name.
    pub locks: Seq<LockGrant>,
    /// The last token granted per resource.
    pub tokens: Seq<(ResourceId, u64)>,
    /// The recorded events.
    pub history: Seq<DistributedLockEvent>,
}

/// The state once the lock on `r` is dropped if its lease ended.
pub open spec fn expire_if_due(s: LockManagerView, r: ResourceId) -> LockManagerView {
    let i = lock_index(s.locks, name(r));
    if i >= 0 && s.locks[i].expires_at.0 <= s.now {
        let g = s.locks[i];
        LockManagerView {
            locks: s.locks.remove(i),
            history: s.history.push(
                DistributedLockEvent::LockExpired {
                    owner: g.owner,
                    resource: r,
                    token: g.token,
                    expired_at: g.expires_at,
                },
            ),
            ..s
        }
    } else {
        s
    }
}

/// The active owner and token of `r`, if its lease has not ended.
pub open spec fn owner_of(s: LockManagerView, r: ResourceId) -> Option<(ClientId, FencingToken)> {
    let i = lock_index(s.locks, name(r));
    if i >= 0 && s.locks[i].expires_at.0 > s.now {
        Some((s.locks[i].owner, s.locks[i].token))
    } else {
        None
    }
}

/// The state after advancing logical time to `t`.
pub open spec fn advance_outcome(s: LockManagerView, t: u64) -> LockManagerView {
    if t < s.now {
        s
    } else {
        LockManagerView {
            now: t,
            locks: still_active(s.locks, t),
            history: s.history + expiry_events(s.locks, t),
            ..s
        }
    }
}

/// The grant `owner` would receive for `r` on a lease of `d`.
pub open spec fn new_grant(s: LockManagerView, owner: ClientId, r: ResourceId, d: u64) -> LockGrant {
    LockGrant {
        owner,
        resource: r,
        token: FencingToken(next_token(s.tokens, name(r)) as u64),
        expires_at: LogicalTime((s.now + d) as u64),
    }
}

/// Whether an acquisition would reach the grant, so that its lease end and
/// token must fit in 64 bits.
pub open spec fn acquire_grants(s: LockManagerView, r: ResourceId, d: u64) -> bool {
    d > 0 && lock_index(expire_if_due(s, r).locks, name(r)) < 0
}

/// Outcome of `owner` asking for `r` on a lease of `d`.
pub open spec fn acquire_outcome(s: LockManagerView, owner: ClientId, r: ResourceId, d: u64) -> (LockManagerView, Result<LockGrant, DistributedLockError>) {
    if d == 0 {
        (s, Err(DistributedLockError::InvalidLeaseDuration(LeaseDuration(d))))
    } else {
        let e = expire_if_due(s, r);
        let i = lock_index(e.locks, name(r));
        if i >= 0 {
            (
                e,
                Err(
                    DistributedLockError::ResourceBusy {
                        resource: r,
                        owner: e.locks[i].owner,
                        expires_at: e.locks[i].expires_at,
                    },
                ),
            )
        } else {
            let g = new_grant(e, owner, r, d);
            (
                LockManagerView {
                    locks: insert_sorted(e.locks, g),
                    tokens: set_token(e.tokens, r, g.token.0),
                    history: e.history.push(
                        DistributedLockEvent::LockAcquired {
                            owner,
                            resource: r,
                            token: g.token,
                            expires_at: g.expires_at,
                        },
                    ),
                    ..e
                },
                Ok(g),
            )
        }
    }
}

/// The error an owner-and-token check on `r` meets, if any.
pub open spec fn holder_error(e: LockManagerView, owner: ClientId, r: ResourceId, token: FencingToken) -> Option<DistributedLockError> {
    let i = lock_index(e.locks, name(r));
    if i < 0 {
        Some(DistributedLockError::LockNotHeld(r))
    } else if e.locks[i].owner.0 != owner.0 {
        Some(
            DistributedLockError::NotLockOwner {
                resource: r,
                expected: e.locks[i].owner,
                attempted: owner,
            },
        )
    } else if e.locks[i].token.0 != token.0 {
        Some(
            DistributedLockError::StaleFencingToken {
                resource: r,
                current: e.locks[i].token,
                attempted: token,
            },
        )
    } else {
        None
    }
}

/// Outcome of `owner` renewing its lock on `r` for a lease of `d`.
pub open spec fn renew_outcome(s: LockManagerView, owner: ClientId, r: ResourceId, token: FencingToken, d: u64) -> (LockManagerView, Result<LockGrant, DistributedLockError>) {
    if d == 0 {
        (s, Err(DistributedLockError::InvalidLeaseDuration(LeaseDuration(d))))
    } else {
        let e = expire_if_due(s, r);
        match holder_error(e, owner, r, token) {
            Some(err) => (e, Err(err)),
            None => {
                let i = lock_index(e.locks, name(r));
                let expires_at = LogicalTime((e.now + d) as u64);
                let g = LockGrant { expires_at, ..e.locks[i] };
                (
                    LockManagerView {
                        locks: e.locks.update(i, g),
                        history: e.history.push(
                            DistributedLockEvent::LockRenewed { owner, resource: r, token, expires_at },
                        ),
                        ..e
                    },
                    Ok(g),
                )
            },
        }
    }
}

/// Outcome of `owner` releasing its lock on `r`.
pub open spec fn release_outcome(s: LockManagerView, owner: ClientId, r: ResourceId, token: FencingToken) -> (LockManagerView, Result<(), DistributedLockError>) {
    let e = expire_if_due(s, r);
    match holder_error(e, owner, r, token) {
        Some(err) => (e, Err(err)),
        None => (
            LockManagerView {
                locks: e.locks.remove(lock_index(e.locks, name(r))),
                history: e.history.push(
                    DistributedLockEvent::LockReleased { owner, resource: r, token },
                ),
                ..e
            },
            Ok(()),
        ),
    }
}

/// The error a fencing-token check on `r` meets, if any.
pub open spec fn token_error(e: LockManagerView, r: ResourceId, token: FencingToken) -> Option<DistributedLockError> {
    let i = lock_index(e.locks, name(r));
    if i < 0 {
        Some(DistributedLockError::LockNotHeld(r))
    } else if e.locks[i].token.0 != token.0 {
        Some(
            DistributedLockError::StaleFencingToken {
                resource: r,
                current: e.locks[i].token,
                attempted: token,
            },
        )
    } else {
        None
    }
}

proof fn lemma_lock_index(s: Seq<LockGrant>, n: Seq<char>, i: int)
    requires
        ordered_by_resource(s),
        0 <= i < s.len(),
        name(s[i].resource) == n,
    ensures
        lock_index(s, n) == i,
{
    let j = choose|j: int| 0 <= j < s.len() && name(#[trigger] s[j].resource) == n;
    if j != i {
        if j < i {
            assert(text_before(name(s[j].resource), name(s[i].resource)));
        } else {
            assert(text_before(name(s[i].resource), name(s[j].resource)));
        }
        lemma_text_order(n, n, n);
    }
}

proof fn lemma_insert_sorted(s: Seq<LockGrant>, g: LockGrant, p: int)
    requires
        ordered_by_resource(s),
        0 <= p <= s.len(),
        forall|i: int| 0 <= i < p ==> text_before(name(#[trigger] s[i].resource), name(g.resource)),
        forall|i: int| p <= i < s.len() ==> text_before(name(g.resource), name(#[trigger] s[i].resource)),
    ensures
        insert_sorted(s, g) == s.insert(p, g),
        ordered_by_resource(s.insert(p, g)),
    decreases s.len(),
{
    if s.len() == 0 {
        assert(s.insert(p, g) =~= seq![g]);
    } else if p == s.len() {
        assert(text_before(name(s.last().resource), name(g.resource)));
        assert(s.insert(p, g) =~= s.push(g));
    } else {
        let last = s.last();
        assert(text_before(name(g.resource), name(last.resource)));
        lemma_text_order(name(g.resource), name(last.resource), name(g.resource));
        lemma_insert_sorted(s.drop_last(), g, p);
        assert(s.insert(p, g) =~= s.drop_last().insert(p, g).push(last));
    }
    let t = s.insert(p, g);
    assert forall|i: int, j: int| 0 <= i < j < t.len() implies text_before(name(#[trigger] t[i].resource), name(#[trigger] t[j].resource)) by {
        if i < p && j > p {
            lemma_text_order(name(t[i].resource), name(g.resource), name(t[j].resource));
        }
    }
}

proof fn lemma_token_index(t: Seq<(ResourceId, u64)>, n: Seq<char>)
    ensures
        token_index(t, n) < t.len(),
        token_index(t, n) >= 0 ==> name(t[token_index(t, n)].0) == n,
        token_index(t, n) < 0 ==> forall|i: int| 0 <= i < t.len() ==> name(#[trigger] t[i].0) != n,
        token_index(t, n) >= 0 ==> forall|i: int| token_index(t, n) < i < t.len() ==> name(#[trigger] t[i].0) != n,
    decreases t.len(),
{
    if t.len() > 0 {
        lemma_token_index(t.drop_last(), n);
        assert forall|i: int| 0 <= i < t.len() - 1 implies t[i] == t.drop_last()[i] by {}
    }
}

/// Deterministic lease-based lock manager.
#[derive(Clone, Debug, PartialEq, Eq)]
pub struct DistributedLockManager {
    now: LogicalTime,
    locks: Vec<ActiveLock>,
    last_tokens: Vec<(ResourceId, u64)>,
    history: Vec<DistributedLockEvent>,
}

#[derive(Clone, Copy, Debug, PartialEq, Eq)]
struct ActiveLock {
    grant: LockGrant,
}

impl ActiveLock {
    fn is_active_at(&self, now: LogicalTime) -> (b: bool)
        ensures
            b == (self.grant.expires_at.0 > now.0),
    {
        self.grant.expires_at.0 > now.0
    }
}

impl View for DistributedLockManager {
    type V = LockManagerView;

    closed spec fn view(&self) -> LockManagerView {
        LockManagerView {
            now: self.now.0,
            locks: self.locks@.map_values(|a: ActiveLock| a.grant),
            tokens: self.last_tokens@,
            history: self.history@,
        }
    }
}

impl DistributedLockManager {
    /// The locks are kept in strict resource order, one per resource.
    pub closed spec fn wf(&self) -> bool {
        ordered_by_resource(self@.locks)
    }

    /// Facts that the well-formedness gives callers.
    pub proof fn lemma_wf(&self)
        requires
            self.wf(),
        ensures
            ordered_by_resource(self@.locks),
    {
    }

    /// A manager at the given logical time, holding no lock.
    pub fn new(now: LogicalTime) -> (m: Self)
        ensures
            m.wf(),
            m@ == (LockManagerView {
                now: now.0,
                locks: Seq::empty(),
                tokens: Seq::empty(),
                history: Seq::empty(),
            }),
    {
        let m = DistributedLockManager {
            now,
            locks: Vec::new(),
            last_tokens: Vec::new(),
            history: Vec::new(),
        };
        proof {
            assert(m@.locks =~= Seq::<LockGrant>::empty());
        }
        m
    }

    /// Current logical time.
    pub fn now(&self) -> (t: LogicalTime)
        ensures
            t.0 == self@.now,
    {
        self.now
    }

    /// The active owner and token of a resource, if its lease has not ended.
    pub fn owner(&self, resource: ResourceId) -> (r: Option<(ClientId, FencingToken)>)
        requires
            self.wf(),
        ensures
            r == owner_of(self@, resource),
    {
        match self.find(resource) {
            Some(i) => {
                let lock = self.locks[i];
                if lock.is_active_at(self.now) {
                    Some((lock.grant.owner, lock.grant.token))
                } else {
                    None
                }
            },
            None => None,
        }
    }

    /// The recorded events.
    pub fn history(&self) -> (h: &[DistributedLockEvent])
        ensures
            h@ == self@.history,
    {
        self.history.as_slice()
    }

    /// Moves logical time forward and expires the leases that ended, in
    /// resource order; moving backwards changes nothing.
    pub fn advance_to(&mut self, now: LogicalTime)
        requires
            old(self).wf(),
        ensures
            final(self).wf(),
            final(self)@ == advance_outcome(old(self)@, now.0),
    {
        if now.0 < self.now.0 {
            return;
        }
        self.now = now;
        self.expire_due_locks();
    }

    /// A client asks for a lock on a resource for a lease of `duration`.
    ///
    /// The lease must be longer than zero. A lock whose lease ended is
    /// dropped first; an active one makes the resource busy. Otherwise the
    /// client gets the next fencing token of the resource.
    pub fn acquire(&mut self, owner: ClientId, resource: ResourceId, duration: LeaseDuration) -> (r: Result<LockGrant, DistributedLockError>)
        requires
            old(self).wf(),
            acquire_grants(old(self)@, resource, duration.0) ==> old(self)@.now + duration.0 <= u64::MAX
                && next_token(old(self)@.tokens, name(resource)) <= u64::MAX,
        ensures
            final(self).wf(),
            (final(self)@, r) == acquire_outcome(old(self)@, owner, resource, duration.0),
    {
        if duration.0 == 0 {
            return Err(DistributedLockError::InvalidLeaseDuration(duration));
        }
        self.expire_resource_if_due(resource);
        if let Some(i) = self.find(resource) {
            let active = self.locks[i];
            return Err(
                DistributedLockError::ResourceBusy {
                    resource,
                    owner: active.grant.owner,
                    expires_at: active.grant.expires_at,
                },
            );
        }
        let token = self.next_token(resource);
        let grant = LockGrant {
            owner,
            resource,
            token,
            expires_at: LogicalTime(self.now.0 + duration.0),
        };
        self.insert_lock(grant);
        self.history.push(
            DistributedLockEvent::LockAcquired {
                owner,
                resource,
                token,
                expires_at: grant.expires_at,
            },
        );
        Ok(grant)
    }

    /// The owner renews its lock with its current token for a new lease of
    /// `duration` from now.
    pub fn renew(&mut self, owner: ClientId, resource: ResourceId, token: FencingToken, duration: LeaseDuration) -> (r: Result<LockGrant, DistributedLockError>)
        requires
            old(self).wf(),
            duration.0 > 0 && holder_error(expire_if_due(old(self)@, resource), owner, resource, token)
                is None ==> old(self)@.now + duration.0 <= u64::MAX,
        ensures
            final(self).wf(),
            (final(self)@, r) == renew_outcome(old(self)@, owner, resource, token, duration.0),
    {
        if duration.0 == 0 {
            return Err(DistributedLockError::InvalidLeaseDuration(duration));
        }
        self.expire_resource_if_due(resource);
        let i = self.check_holder(owner, resource, token)?;
        let expires_at = LogicalTime(self.now.0 + duration.0);
        let mut lock = self.locks[i];
        lock.grant.expires_at = expires_at;
        let ghost before = self@;
        self.locks.set(i, lock);
        proof {
            assert(self@.locks =~= before.locks.update(i as int, lock.grant));
            assert forall|a: int, b: int| 0 <= a < b < self@.locks.len() implies text_before(name(#[trigger] self@.locks[a].resource), name(#[trigger] self@.locks[b].resource)) by {
                assert(name(self@.locks[a].resource) == name(before.locks[a].resource));
                assert(name(self@.locks[b].resource) == name(before.locks[b].resource));
            }
        }
        self.history.push(
            DistributedLockEvent::LockRenewed { owner, resource, token, expires_at },
        );
        Ok(lock.grant)
    }

    /// The owner releases its lock, presenting its current token.
    pub fn release(&mut self, owner: ClientId, resource: ResourceId, token: FencingToken) -> (r: Result<(), DistributedLockError>)
        requires
            old(self).wf(),
        ensures
            final(self).wf(),
            (final(self)@, r) == release_outcome(old(self)@, owner, resource, token),
    {
        self.expire_resource_if_due(resource);
        let i = self.check_holder(owner, resource, token)?;
        let ghost before = self@;
        self.locks.remove(i);
        proof {
            assert(self@.locks =~= before.locks.remove(i as int));
            assert forall|a: int, b: int| 0 <= a < b < self@.locks.len() implies text_before(name(#[trigger] self@.locks[a].resource), name(#[trigger] self@.locks[b].resource)) by {
                if a >= i {
                    assert(self@.locks[a] == before.locks[a + 1]);
                } else {
                    assert(self@.locks[a] == before.locks[a]);
                }
                if b >= i {
                    assert(self@.locks[b] == before.locks[b + 1]);
                } else {
                    assert(self@.locks[b] == before.locks[b]);
                }
            }
        }
        self.history.push(DistributedLockEvent::LockReleased { owner, resource, token });
        Ok(())
    }

    /// Checks that an operation presents the active fencing token of the
    /// resource, after dropping a lock whose lease ended.
    pub fn validate_operation(&mut self, resource: ResourceId, token: FencingToken) -> (r: Result<(), DistributedLockError>)
        requires
            old(self).wf(),
        ensures
            final(self).wf(),
            final(self)@ == expire_if_due(old(self)@, resource),
            r == match token_error(expire_if_due(old(self)@, resource), resource, token) {
                Some(e) => Err::<(), DistributedLockError>(e),
                None => Ok(()),
            },
    {
        self.expire_resource_if_due(resource);
        match self.find(resource) {
            None => Err(DistributedLockError::LockNotHeld(resource)),
            Some(i) => {
                let active = self.locks[i];
                if active.grant.token.0 == token.0 {
                    Ok(())
                } else {
                    Err(
                        DistributedLockError::StaleFencingToken {
                            resource,
                            current: active.grant.token,
                            attempted: token,
                        },
                    )
                }
            },
        }
    }

    /// Position of the lock on a resource.
    fn find(&self, resource: ResourceId) -> (r: Option<usize>)
        requires
            self.wf(),
        ensures
            match r {
                Some(i) => i < self@.locks.len() && lock_index(self@.locks, name(resource)) == i,
                None => lock_index(self@.locks, name(resource)) < 0,
            },
    {
        let n = self.locks.len();
        let mut i: usize = 0;
        while i < n
            invariant
                i <= n,
                n == self@.locks.len(),
                self.wf(),
                forall|j: int| 0 <= j < i ==> name(#[trigger] self@.locks[j].resource) != name(resource),
            decreases n - i,
        {
            if text_eq(self.locks[i].grant.resource.0, resource.0) {
                proof {
                    lemma_lock_index(self@.locks, name(resource), i as int);
                }
                return Some(i);
            }
            i = i + 1;
        }
        None
    }

    /// Checks owner and token of the lock on a resource; gives its position.
    fn check_holder(&self, owner: ClientId, resource: ResourceId, token: FencingToken) -> (r: Result<usize, DistributedLockError>)
        requires
            self.wf(),
        ensures
            match r {
                Ok(i) => holder_error(self@, owner, resource, token) is None && i == lock_index(self@.locks, name(resource)) && i < self@.locks.len(),
                Err(e) => holder_error(self@, owner, resource, token) == Some(e),
            },
    {
        let i = match self.find(resource) {
            Some(i) => i,
            None => {
                return Err(DistributedLockError::LockNotHeld(resource));
            },
        };
        let active = self.locks[i];
        if active.grant.owner.0 != owner.0 {
            return Err(
                DistributedLockError::NotLockOwner {
                    resource,
                    expected: active.grant.owner,
                    attempted: owner,
                },
            );
        }
        if active.grant.token.0 != token.0 {
            return Err(
                DistributedLockError::StaleFencingToken {
                    resource,
                    current: active.grant.token,
                    attempted: token,
                },
            );
        }
        Ok(i)
    }

    fn expire_due_locks(&mut self)
        requires
            old(self).wf(),
        ensures
            final(self).wf(),
            final(self)@ == (LockManagerView {
                locks: still_active(old(self)@.locks, old(self)@.now),
                history: old(self)@.history + expiry_events(old(self)@.locks, old(self)@.now),
                ..old(self)@
            }),
    {
        let ghost s = self@;
        let n = self.locks.len();
        let mut kept: Vec<ActiveLock> = Vec::new();
        let mut i: usize = 0;
        while i < n
            invariant
                i <= n,
                n == s.locks.len(),
                self.locks@.map_values(|a: ActiveLock| a.grant) == s.locks,
                self.now.0 == s.now,
                self.last_tokens@ == s.tokens,
                s == old(self)@,
                ordered_by_resource(s.locks),
                kept@.map_values(|a: ActiveLock| a.grant) == still_active(s.locks.take(i as int), s.now),
                self.history@ == s.history + expiry_events(s.locks.take(i as int), s.now),
                forall|k: int| 0 <= k < kept@.len() ==> exists|j: int| 0 <= j < i && (#[trigger] kept@[k]).grant == s.locks[j],
                forall|k: int, l: int| 0 <= k < l < kept@.len() ==> exists|a: int, b: int| 0 <= a < b < i && (#[trigger] kept@[k]).grant == s.locks[a] && (#[trigger] kept@[l]).grant == s.locks[b],
            decreases n - i,
        {
            let lock = self.locks[i];
            proof {
                assert(s.locks.take(i + 1).drop_last() == s.locks.take(i as int));
                assert(s.locks[i as int] == lock.grant);
            }
            if lock.is_active_at(self.now) {
                let ghost prev = kept@;
                kept.push(lock);
                proof {
                    assert(kept@.map_values(|a: ActiveLock| a.grant) =~= prev.map_values(|a: ActiveLock| a.grant).push(lock.grant));
                    assert forall|k: int, l: int| 0 <= k < l < kept@.len() implies exists|a: int, b: int| 0 <= a < b < i + 1 && (#[trigger] kept@[k]).grant == s.locks[a] && (#[trigger] kept@[l]).grant == s.locks[b] by {
                        if l == kept@.len() - 1 {
                            assert(kept@[k] == prev[k]);
                            let a = choose|j: int| 0 <= j < i && (#[trigger] prev[k]).grant == s.locks[j];
                            assert(0 <= a < i as int && kept@[k].grant == s.locks[a] && kept@[l].grant == s.locks[i as int]);
                        } else {
                            assert(kept@[k] == prev[k] && kept@[l] == prev[l]);
                            let (a, b) = choose|a: int, b: int| 0 <= a < b < i && (#[trigger] prev[k]).grant == s.locks[a] && (#[trigger] prev[l]).grant == s.locks[b];
                            assert(0 <= a < b < i + 1);
                        }
                    }
                    assert forall|k: int| 0 <= k < kept@.len() implies exists|j: int| 0 <= j < i + 1 && (#[trigger] kept@[k]).grant == s.locks[j] by {
                        if k < prev.len() {
                            assert(kept@[k] == prev[k]);
                            let j = choose|j: int| 0 <= j < i && (#[trigger] prev[k]).grant == s.locks[j];
                            assert(0 <= j < i + 1);
                        } else {
                            assert(kept@[k].grant == s.locks[i as int]);
                        }
                    }
                }
            } else {
                self.history.push(
                    DistributedLockEvent::LockExpired {
                        owner: lock.grant.owner,
                        resource: lock.grant.resource,
                        token: lock.grant.token,
                        expired_at: lock.grant.expires_at,
                    },
                );
            }
            i = i + 1;
        }
        proof {
            assert(s.locks.take(i as int) == s.locks);
            let kv = kept@.map_values(|x: ActiveLock| x.grant);
            assert forall|a: int, b: int| 0 <= a < b < kv.len() implies text_before(name(#[trigger] kv[a].resource), name(#[trigger] kv[b].resource)) by {
                assert(kv[a] == kept@[a].grant && kv[b] == kept@[b].grant);
                let (x, y) = choose|x: int, y: int| 0 <= x < y < i && (#[trigger] kept@[a]).grant == s.locks[x] && (#[trigger] kept@[b]).grant == s.locks[y];
            }
        }
        self.locks = kept;
    }

    fn expire_resource_if_due(&mut self, resource: ResourceId)
        requires
            old(self).wf(),
        ensures
            final(self).wf(),
            final(self)@ == expire_if_due(old(self)@, resource),
    {
        if let Some(i) = self.find(resource) {
            let lock = self.locks[i];
            if !lock.is_active_at(self.now) {
                let ghost before = self@;
                self.locks.remove(i);
                proof {
                    assert(self@.locks =~= before.locks.remove(i as int));
                    assert forall|a: int, b: int| 0 <= a < b < self@.locks.len() implies text_before(name(#[trigger] self@.locks[a].resource), name(#[trigger] self@.locks[b].resource)) by {
                        if a >= i {
                            assert(self@.locks[a] == before.locks[a + 1]);
                        } else {
                            assert(self@.locks[a] == before.locks[a]);
                        }
                        if b >= i {
                            assert(self@.locks[b] == before.locks[b + 1]);
                        } else {
                            assert(self@.locks[b] == before.locks[b]);
                        }
                    }
                }
                self.history.push(
                    DistributedLockEvent::LockExpired {
                        owner: lock.grant.owner,
                        resource,
                        token: lock.grant.token,
                        expired_at: lock.grant.expires_at,
                    },
                );
            }
        }
    }

    fn insert_lock(&mut self, grant: LockGrant)
        requires
            old(self).wf(),
            lock_index(old(self)@.locks, name(grant.resource)) < 0,
        ensures
            final(self).wf(),
            final(self)@ == (LockManagerView { locks: insert_sorted(old(self)@.locks, grant), ..old(self)@ }),
    {
        let n = self.locks.len();
        let mut p: usize = 0;
        let mut stop = false;
        while !stop && p < n
            invariant
                p <= n,
                n == self@.locks.len(),
                *self == *old(self),
                self.wf(),
                forall|j: int| 0 <= j < p ==> text_before(name(#[trigger] self@.locks[j].resource), name(grant.resource)),
                stop ==> p < n && !text_before(name(self@.locks[p as int].resource), name(grant.resource)),
            decreases n - p + (if stop { 0int } else { 1int }),
        {
            if text_lt(self.locks[p].grant.resource.0, grant.resource.0) {
                p = p + 1;
            } else {
                stop = true;
            }
        }
        proof {
            let s = self@.locks;
            assert forall|j: int| p <= j < s.len() implies text_before(name(grant.resource), name(#[trigger] s[j].resource)) by {
                if name(s[j].resource) == name(grant.resource) {
                    assert(0 <= j < s.len() && name(s[j].resource) == name(grant.resource));
                    assert(lock_index(s, name(grant.resource)) >= 0);
                }
                lemma_text_order(name(s[p as int].resource), name(grant.resource), name(s[j].resource));
                lemma_text_order(name(s[j].resource), name(grant.resource), name(s[j].resource));
                if j > p {
                    assert(text_before(name(s[p as int].resource), name(s[j].resource)));
                    lemma_text_order(name(grant.resource), name(s[p as int].resource), name(s[j].resource));
                    lemma_text_order(name(s[p as int].resource), name(grant.resource), name(s[p as int].resource));
                }
            }
            lemma_insert_sorted(s, grant, p as int);
        }
        let ghost before = self@;
        self.locks.insert(p, ActiveLock { grant });
        proof {
            assert(self@.locks =~= before.locks.insert(p as int, grant));
        }
    }

    fn next_token(&mut self, resource: ResourceId) -> (t: FencingToken)
        requires
            next_token(old(self)@.tokens, name(resource)) <= u64::MAX,
        ensures
            t.0 == next_token(old(self)@.tokens, name(resource)),
            final(self)@ == (LockManagerView { tokens: set_token(old(self)@.tokens, resource, t.0), ..old(self)@ }),
            final(self).locks == old(self).locks,
    {
        let ghost tokens = self.last_tokens@;
        proof {
            lemma_token_index(tokens, name(resource));
        }
        let n = self.last_tokens.len();
        let mut i: usize = n;
        while i > 0
            invariant
                i <= n,
                n == tokens.len(),
                self.last_tokens@ == tokens,
                next_token(tokens, name(resource)) <= u64::MAX,
                *self == *old(self),
                forall|j: int| i <= j < n ==> name(#[trigger] tokens[j].0) != name(resource),
            decreases i,
        {
            let (r, last) = self.last_tokens[i - 1];
            proof {
                assert(tokens[i - 1] == (r, last));
            }
            if text_eq(r.0, resource.0) {
                proof {
                    assert(token_index(tokens, name(resource)) == i - 1) by {
                        lemma_token_index(tokens, name(resource));
                        if token_index(tokens, name(resource)) > i - 1 {
                            assert(name(tokens[token_index(tokens, name(resource))].0) == name(resource));
                        }
                        if token_index(tokens, name(resource)) < i - 1 {
                            assert(name(tokens[i - 1].0) == name(resource));
                        }
                    }
                }
                let next = last + 1;
                self.last_tokens.set(i - 1, (resource, next));
                return FencingToken(next);
            }
            i = i - 1;
        }
        proof {
            if token_index(tokens, name(resource)) >= 0 {
                assert(name(tokens[token_index(tokens, name(resource))].0) == name(resource));
            }
        }
        self.last_tokens.push((resource, 1));
        FencingToken(1)
    }
}

/// Fencing tokens of a resource strictly grow: a grant carries a token one
/// past the last one given for that resource, and the table remembers it.
pub proof fn lemma_tokens_increase(s: LockManagerView, owner: ClientId, r: ResourceId, d: u64)
    requires
        acquire_outcome(s, owner, r, d).1 is Ok,
        next_token(s.tokens, name(r)) <= u64::MAX,
    ensures
        ({
            let (after, res) = acquire_outcome(s, owner, r, d);
            let g = res->Ok_0;
            &&& token_index(s.tokens, name(r)) >= 0 ==> g.token.0 > s.tokens[token_index(s.tokens, name(r))].1
            &&& token_index(after.tokens, name(r)) >= 0
            &&& after.tokens[token_index(after.tokens, name(r))].1 == g.token.0
        }),
{
    let e = expire_if_due(s, r);
    assert(e.tokens == s.tokens);
    lemma_token_index(s.tokens, name(r));
    let t = set_token(s.tokens, r, next_token(s.tokens, name(r)) as u64);
    lemma_token_index(t, name(r));
    if token_index(s.tokens, name(r)) >= 0 {
        let k = token_index(s.tokens, name(r));
        if token_index(t, name(r)) != k {
            if token_index(t, name(r)) > k {
                assert(t[token_index(t, name(r))] == s.tokens[token_index(t, name(r))]);
            } else {
                assert(name(t[k].0) == name(r));
            }
        }
    } else {
        if token_index(t, name(r)) != t.len() - 1 {
            assert(name(t[t.len() - 1].0) == name(r));
        }
    }
}

/// Mutual exclusion: a well-formed manager holds at most one lock per
/// resource, and a validated operation presents the token of that lock.
pub proof fn lemma_one_lock_per_resource(s: LockManagerView, r: ResourceId, token: FencingToken, i: int, j: int)
    requires
        ordered_by_resource(s.locks),
        0 <= i < s.locks.len(),
        0 <= j < s.locks.len(),
        name(s.locks[i].resource) == name(s.locks[j].resource),
    ensures
        i == j,
        token_error(s, r, token) is None ==> lock_index(s.locks, name(r)) >= 0
            && s.locks[lock_index(s.locks, name(r))].token == token,
{
    if i != j {
        let n = name(s.locks[i].resource);
        if i < j {
            assert(text_before(name(s.locks[i].resource), name(s.locks[j].resource)));
        } else {
            assert(text_before(name(s.locks[j].resource), name(s.locks[i].resource)));
        }
        lemma_text_order(n, n, n);
    }
}

} // verus!
