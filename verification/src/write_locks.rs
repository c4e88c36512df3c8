//! Same-id mutation exclusion with storage proportional to the active callers.
//!
//! Every caller registers before it waits, so the entry of an id cannot be retired and
//! replaced while anyone can still acquire it. The last registered caller retires the entry. A
//! bulk operation excludes every registered caller and every new one.
//!
//! This is the state that the lock's mutexes guard; waiting is the caller's.

use std::collections::BTreeMap;

use vstd::prelude::*;

verus! {

/// What is known of one id.
#[derive(Clone, Copy, Debug, PartialEq, Eq, Structural)]
pub struct Registration {
    /// Registered callers: the holder and the waiters.
    pub users: usize,
    /// Whether one of them holds the lock.
    pub held: bool,
}

/// The view of `LogicalWriteLocks`.
#[verifier::ext_equal]
pub struct LocksView {
    pub entries: Map<u64, Registration>,
    /// A bulk operation is in progress.
    pub bulk: bool,
}

/// The registered callers of every id, and the bulk barrier.
pub struct LogicalWriteLocks {
    entries: BTreeMap<u64, Registration>,
    bulk: bool,
}

impl View for LogicalWriteLocks {
    type V = LocksView;

    closed spec fn view(&self) -> LocksView {
        LocksView { entries: self.entries@, bulk: self.bulk }
    }
}

/// Every entry has a registered caller, and there is none during a bulk operation.
pub open spec fn locks_consistent(locks: LocksView) -> bool {
    &&& forall|id: u64| #[trigger]
        locks.entries.contains_key(id) ==> locks.entries[id].users > 0
    &&& locks.bulk ==> locks.entries == Map::<u64, Registration>::empty()
}

/// How many callers of an id are registered.
pub open spec fn users_of(locks: LocksView, id: u64) -> nat {
    if locks.entries.contains_key(id) {
        locks.entries[id].users as nat
    } else {
        0
    }
}

/// Whether a caller holds the id.
pub open spec fn is_held(locks: LocksView, id: u64) -> bool {
    locks.entries.contains_key(id) && locks.entries[id].held
}

/// One more caller of an id.
pub open spec fn registered(locks: LocksView, id: u64) -> LocksView {
    LocksView {
        entries: locks.entries.insert(
            id,
            Registration {
                users: (users_of(locks, id) + 1) as usize,
                held: is_held(locks, id),
            },
        ),
        ..locks
    }
}

/// A registered caller holds the id.
pub open spec fn acquired(locks: LocksView, id: u64) -> LocksView {
    LocksView {
        entries: locks.entries.insert(id, Registration { held: true, ..locks.entries[id] }),
        ..locks
    }
}

/// The holder of an id is gone; the last caller takes the entry along.
pub open spec fn released(locks: LocksView, id: u64) -> LocksView {
    if !locks.entries.contains_key(id) {
        locks
    } else if locks.entries[id].users <= 1 {
        LocksView { entries: locks.entries.remove(id), ..locks }
    } else {
        LocksView {
            entries: locks.entries.insert(
                id,
                Registration { users: (locks.entries[id].users - 1) as usize, held: false },
            ),
            ..locks
        }
    }
}

/// Two registries differ at most in one id.
pub open spec fn same_but(a: LocksView, b: LocksView, id: u64) -> bool {
    &&& a.bulk == b.bulk
    &&& forall|other: u64|
        other != id ==> (#[trigger] a.entries.contains_key(other) <==> b.entries.contains_key(
            other,
        ))
    &&& forall|other: u64|
        other != id && a.entries.contains_key(other) ==> #[trigger] a.entries[other]
            == b.entries[other]
}

/// An id with one caller more: a first caller does not hold it, and a further one leaves to its
/// holder what is held.
pub open spec fn one_caller_more(locks: LocksView, id: u64) -> Registration {
    if locks.entries.contains_key(id) {
        Registration {
            users: (locks.entries[id].users + 1) as usize,
            held: locks.entries[id].held,
        }
    } else {
        Registration { users: 1, held: false }
    }
}

/// A registry without callers.
pub open spec fn no_callers() -> LocksView {
    LocksView { entries: Map::empty(), bulk: false }
}

impl Default for LogicalWriteLocks {
    fn default() -> (r: Self)
        ensures
            r@ == no_callers(),
            locks_consistent(r@),
    {
        LogicalWriteLocks { entries: BTreeMap::new(), bulk: false }
    }
}

impl LogicalWriteLocks {
    /// A registry without callers.
    pub fn new() -> (r: Self)
        ensures
            r@ == no_callers(),
            locks_consistent(r@),
    {
        Self::default()
    }

    /// Registers a caller of `logical`, unless a bulk operation is in progress.
    pub fn register(&mut self, logical: u64) -> (r: bool)
        requires
            users_of(old(self)@, logical) < usize::MAX,
        ensures
            r == !old(self)@.bulk,
            final(self)@ == if r {
                registered(old(self)@, logical)
            } else {
                old(self)@
            },
            r ==> final(self)@.entries.contains_key(logical),
            r ==> final(self)@.entries[logical] == one_caller_more(old(self)@, logical),
            same_but(old(self)@, final(self)@, logical),
            locks_consistent(old(self)@) ==> locks_consistent(final(self)@),
    {
        if self.bulk {
            return false;
        }
        let (users, held): (usize, bool) = match self.entries.get(&logical) {
            Some(registration) => (registration.users, registration.held),
            None => (0, false),
        };
        self.entries.insert(logical, Registration { users: users + 1, held });
        true
    }

    /// Lets a registered caller hold `logical`, unless another one does.
    pub fn lock(&mut self, logical: u64) -> (r: bool)
        ensures
            r == (old(self)@.entries.contains_key(logical) && !is_held(old(self)@, logical)),
            final(self)@ == if r {
                acquired(old(self)@, logical)
            } else {
                old(self)@
            },
            r <==> old(self)@.entries.contains_key(logical) && !old(self)@.entries[logical].held,
            old(self)@.entries.contains_key(logical) ==> {
                &&& final(self)@.entries.contains_key(logical)
                &&& final(self)@.entries[logical].held
                &&& final(self)@.entries[logical].users == old(self)@.entries[logical].users
            },
            same_but(old(self)@, final(self)@, logical),
            locks_consistent(old(self)@) ==> locks_consistent(final(self)@),
    {
        let registration = match self.entries.get(&logical) {
            Some(registration) => *registration,
            None => {
                return false;
            },
        };
        if registration.held {
            return false;
        }
        self.entries.insert(logical, Registration { users: registration.users, held: true });
        true
    }

    /// Ends the holder's part, on every return or unwind: the id is free for a waiter, and the
    /// last registered caller retires the entry.
    pub fn release(&mut self, logical: u64)
        ensures
            final(self)@ == released(old(self)@, logical),
            final(self)@.entries.contains_key(logical) <==> old(self)@.entries.contains_key(logical)
                && old(self)@.entries[logical].users > 1,
            final(self)@.entries.contains_key(logical) ==> {
                &&& !final(self)@.entries[logical].held
                &&& final(self)@.entries[logical].users == old(self)@.entries[logical].users - 1
            },
            same_but(old(self)@, final(self)@, logical),
            locks_consistent(old(self)@) ==> locks_consistent(final(self)@),
    {
        let registration = match self.entries.get(&logical) {
            Some(registration) => *registration,
            None => {
                return;
            },
        };
        if registration.users <= 1 {
            self.entries.remove(&logical);
            assert(self.entries@ =~= old(self).entries@.remove(logical));
        } else {
            self.entries.insert(
                logical,
                Registration { users: registration.users - 1, held: false },
            );
        }
    }

    /// Starts a bulk operation, unless anyone is registered or another one is in progress.
    pub fn lock_bulk(&mut self) -> (r: bool)
        ensures
            r == (!old(self)@.bulk && old(self)@.entries == Map::<u64, Registration>::empty()),
            final(self)@ == (LocksView { bulk: old(self)@.bulk || r, ..old(self)@ }),
            locks_consistent(old(self)@) ==> locks_consistent(final(self)@),
    {
        if self.bulk {
            return false;
        }
        if !self.entries.is_empty() {
            return false;
        }
        assert(self.entries@ =~= Map::<u64, Registration>::empty());
        self.bulk = true;
        true
    }

    /// Ends the bulk operation.
    pub fn release_bulk(&mut self)
        ensures
            final(self)@ == (LocksView { bulk: false, ..old(self)@ }),
            locks_consistent(old(self)@) ==> locks_consistent(final(self)@),
    {
        self.bulk = false;
    }

    /// How many callers of `logical` are registered.
    pub fn users(&self, logical: u64) -> (r: usize)
        ensures
            r == users_of(self@, logical),
    {
        match self.entries.get(&logical) {
            Some(registration) => registration.users,
            None => 0,
        }
    }

    /// Whether no caller is registered.
    pub fn is_idle(&self) -> (r: bool)
        ensures
            r == (self@.entries == Map::<u64, Registration>::empty()),
    {
        let r = self.entries.is_empty();
        assert(r ==> self.entries@ =~= Map::<u64, Registration>::empty());
        r
    }
}

// ---- Laws ----------------------------------------------------------------------------------

/// Whatever is done, no entry is without a caller, and no caller is registered during a bulk
/// operation.
pub proof fn lemma_locks_consistent(locks: LocksView, id: u64)
    requires
        locks_consistent(locks),
        users_of(locks, id) < usize::MAX,
    ensures
        !locks.bulk ==> locks_consistent(registered(locks, id)),
        locks.entries.contains_key(id) ==> locks_consistent(acquired(locks, id)),
        locks_consistent(released(locks, id)),
        locks.entries == Map::<u64, Registration>::empty() ==> locks_consistent(
            LocksView { bulk: true, ..locks },
        ),
        locks_consistent(LocksView { bulk: false, ..locks }),
{
    if locks.bulk {
        assert(!locks.entries.contains_key(id));
    }
}

/// An id that is held stays held, and cannot be held a second time, until its holder releases
/// it: neither another caller of the id nor anyone who works on another id changes that.
pub proof fn lemma_exclusive(locks: LocksView, id: u64, other: u64)
    requires
        is_held(locks, id),
        users_of(locks, other) < usize::MAX,
    ensures
        is_held(registered(locks, other), id),
        other != id && locks.entries.contains_key(other) ==> is_held(acquired(locks, other), id),
        other != id ==> is_held(released(locks, other), id),
{
}

/// Different ids do not wait for each other: whether one can be held does not depend on
/// another.
pub proof fn lemma_ids_independent(locks: LocksView, id: u64, other: u64)
    requires
        id != other,
        users_of(locks, other) < usize::MAX,
    ensures
        is_held(registered(locks, other), id) == is_held(locks, id),
        is_held(acquired(locks, other), id) == is_held(locks, id),
        is_held(released(locks, other), id) == is_held(locks, id),
        users_of(registered(locks, other), id) == users_of(locks, id),
        users_of(acquired(locks, other), id) == users_of(locks, id),
        users_of(released(locks, other), id) == users_of(locks, id),
{
}

/// Waiters pin the entry: when the holder leaves, the entry stays exactly as long as another
/// caller is registered, free for one of them; the last one takes it along.
pub proof fn lemma_waiters_pin(locks: LocksView, id: u64)
    requires
        locks_consistent(locks),
        locks.entries.contains_key(id),
    ensures
        users_of(released(locks, id), id) == users_of(locks, id) - 1,
        released(locks, id).entries.contains_key(id) <==> users_of(locks, id) > 1,
        !is_held(released(locks, id), id),
{
}

/// The life of a lock, read off the entries. A caller that registers is counted and holds nothing;
/// one that locks holds the id, with the same callers registered; and the holder's release frees
/// the id and takes one caller away, the last one with the entry. No other id is touched.
pub proof fn lemma_life_of_a_lock(locks: LocksView, id: u64)
    ensures
        users_of(locks, id) > 0 ==> locks.entries.contains_key(id),
        locks.entries.contains_key(id) ==> users_of(locks, id) == locks.entries[id].users,
        is_held(locks, id) <==> locks.entries.contains_key(id) && locks.entries[id].held,
        registered(locks, id).entries.contains_key(id),
        users_of(locks, id) < usize::MAX ==> registered(locks, id).entries[id] == one_caller_more(
            locks,
            id,
        ),
        same_but(locks, registered(locks, id), id),
        locks.entries.contains_key(id) ==> {
            &&& acquired(locks, id).entries.contains_key(id)
            &&& acquired(locks, id).entries[id].held
            &&& is_held(acquired(locks, id), id)
            &&& acquired(locks, id).entries[id].users == locks.entries[id].users
            &&& users_of(acquired(locks, id), id) == users_of(locks, id)
            &&& same_but(locks, acquired(locks, id), id)
        },
        released(locks, id).entries.contains_key(id) <==> locks.entries.contains_key(id)
            && locks.entries[id].users > 1,
        released(locks, id).entries.contains_key(id) ==> {
            &&& !released(locks, id).entries[id].held
            &&& released(locks, id).entries[id].users == locks.entries[id].users - 1
        },
        same_but(locks, released(locks, id), id),
{
}

/// A second caller waits: after one caller locked an id, nobody can lock it, whoever registers
/// and whatever is done to other ids, until it is released; after that, a caller that is still
/// registered can.
pub proof fn lemma_second_lock_waits(locks: LocksView, id: u64, other: u64)
    requires
        locks.entries.contains_key(id),
        users_of(locks, id) < usize::MAX,
        users_of(locks, other) < usize::MAX,
        other != id,
    ensures
        ({
            let locked = acquired(locks, id);
            &&& is_held(locked, id) && locked.entries[id].held
            &&& registered(locked, id).entries[id].held
            &&& registered(locked, other).entries[id].held
            &&& released(locked, other).entries[id].held
            &&& locks.entries.contains_key(other) ==> acquired(locked, other).entries[id].held
            &&& locks.entries[id].users > 1 ==> {
                &&& released(locked, id).entries.contains_key(id)
                &&& !released(locked, id).entries[id].held
                &&& !is_held(released(locked, id), id)
            }
        }),
{
}

/// A registration that is released at once leaves everything as it was.
pub proof fn lemma_registration_retires(locks: LocksView, id: u64)
    requires
        !locks.entries.contains_key(id),
    ensures
        released(acquired(registered(locks, id), id), id) == locks,
{
    assert(released(acquired(registered(locks, id), id), id).entries =~= locks.entries);
}

/// At first nobody is registered, and no bulk operation is in progress: every id can be registered
/// and then locked.
pub proof fn lemma_no_callers(id: u64)
    ensures
        !no_callers().bulk,
        !no_callers().entries.contains_key(id),
        users_of(no_callers(), id) == 0,
        !is_held(no_callers(), id),
{
}

} // verus!
