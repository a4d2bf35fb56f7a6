use std::collections::BTreeMap;

use vstd::prelude::*;
use vstd::relations::total_ordering;

verus! {

broadcast use vstd::std_specs::btree::group_btree_axioms;

// Points in time are counted in nanoseconds from an origin that the caller
// chooses (the worker context uses the moment it was created); durations are
// counted in nanoseconds too.

/// `k` is the earliest instant at which a timeout of `m` is due.
pub open spec fn is_earliest<T>(m: Map<u128, T>, k: u128) -> bool {
    &&& m.contains_key(k)
    &&& forall|j: u128| #[trigger] m.contains_key(j) ==> k <= j
}

/// The earliest instant of `m`, when it has one.
pub open spec fn earliest<T>(m: Map<u128, T>) -> u128 {
    choose|k: u128| is_earliest(m, k)
}

/// The timeouts of `m` due strictly before `now`.
pub open spec fn due_before<T>(m: Map<u128, T>, now: u128) -> Map<u128, T> {
    Map::new(|k: u128| m.contains_key(k) && k < now, |k: u128| m[k])
}

/// The timeouts of `m` due at `now` or later.
pub open spec fn due_from<T>(m: Map<u128, T>, now: u128) -> Map<u128, T> {
    Map::new(|k: u128| m.contains_key(k) && now <= k, |k: u128| m[k])
}

/// `after` is what recording `timeout` to fire `duration` after `now` makes of
/// the store `before`: unchanged when the instant does not fit, otherwise the
/// timeout stored at that instant, in place of any timeout due at that
/// instant before.
pub open spec fn set_outcome<T>(
    before: Map<u128, T>,
    now: u128,
    duration: u128,
    timeout: T,
    after: Map<u128, T>,
) -> bool {
    if now + duration > u128::MAX {
        after == before
    } else {
        after == before.insert((now + duration) as u128, timeout)
    }
}

/// Time from `now` until the earliest stored timeout; `None` when nothing is
/// stored or when the earliest timeout is already overdue.
pub open spec fn next_timeout_of<T>(m: Map<u128, T>, now: u128) -> Option<u128> {
    if exists|k: u128| is_earliest(m, k) {
        if now <= earliest(m) {
            Some((earliest(m) - now) as u128)
        } else {
            None
        }
    } else {
        None
    }
}

/// A map has at most one earliest instant.
pub proof fn lemma_earliest_unique<T>(m: Map<u128, T>, k: u128)
    requires
        is_earliest(m, k),
    ensures
        earliest(m) == k,
{
    let e = earliest(m);
    assert(is_earliest(m, e));
    assert(e <= k && k <= e);
}

/// A finite map with a timeout has an earliest one.
pub proof fn lemma_earliest_exists<T>(m: Map<u128, T>)
    requires
        m.dom().finite(),
        exists|k: u128| m.contains_key(k),
    ensures
        exists|k: u128| is_earliest(m, k),
{
    let r = |a: u128, b: u128| a <= b;
    assert(total_ordering(r));
    let w = choose|k: u128| m.contains_key(k);
    vstd::set_lib::lemma_set_empty_equivalency_len(m.dom());
    assert(m.dom().len() > 0) by {
        if m.dom().len() == 0 {
            assert(m.dom().contains(w));
        }
    }
    m.dom().find_unique_minimal_ensures(r);
    let k = m.dom().find_unique_minimal(r);
    m.dom().lemma_minimal_equivalent_least(r, k);
    assert forall|j: u128| #[trigger] m.contains_key(j) implies k <= j by {
        assert(r(k, j));
    }
    assert(is_earliest(m, k));
}

/// Calls `BTreeMap::split_off` with the key `at`: the map keeps the entries
/// whose key is before `at` and the entries from `at` on are returned, as the
/// method's documentation says.
#[verifier::external_body]
fn split_off_at<T>(m: &mut BTreeMap<u128, T>, at: u128) -> (r: BTreeMap<u128, T>)
    ensures
        final(m)@ == due_before(old(m)@, at),
        r@ == due_from(old(m)@, at),
{
    m.split_off(&at)
}

/// Calls `BTreeMap::first_key_value` and keeps the key: the documentation
/// says it is the smallest key of the map, and there is none in an empty map.
#[verifier::external_body]
fn first_key<T>(m: &BTreeMap<u128, T>) -> (r: Option<u128>)
    ensures
        match r {
            Some(k) => is_earliest(m@, k),
            None => m@ == Map::<u128, T>::empty(),
        },
{
    m.first_key_value().map(|entry| *entry.0)
}

/// Calls `BTreeMap::pop_first`, which removes and returns the entry with the
/// smallest key, and returns `None` on an empty map, as its documentation
/// says.
#[verifier::external_body]
pub(crate) fn take_first<T>(m: &mut BTreeMap<u128, T>) -> (r: Option<(u128, T)>)
    ensures
        r is Some ==> is_earliest(old(m)@, r.unwrap().0),
        r is Some ==> old(m)@[r.unwrap().0] == r.unwrap().1,
        r is Some ==> final(m)@ == old(m)@.remove(r.unwrap().0),
        old(m)@ != Map::<u128, T>::empty() ==> r is Some,
        r is None ==> final(m)@ == old(m)@,
{
    m.pop_first()
}

/// A pop at `now` splits the store in two: every timeout is either due
/// before `now` and taken out, or due from `now` on and kept, never both.
pub proof fn law_pop_partitions<T>(m: Map<u128, T>, now: u128)
    ensures
        forall|k: u128|
            m.contains_key(k) ==> (#[trigger] due_before(m, now).contains_key(k) != due_from(
                m,
                now,
            ).contains_key(k)),
        due_before(m, now).union_prefer_right(due_from(m, now)) == m,
{
    assert(due_before(m, now).union_prefer_right(due_from(m, now)) =~= m);
}

/// While the worker still has time to wait for the earliest timeout, no
/// timeout is due: a pop at that moment takes nothing out.
pub proof fn law_waiting_means_nothing_due<T>(m: Map<u128, T>, now: u128)
    requires
        next_timeout_of(m, now) is Some,
    ensures
        due_before(m, now) == Map::<u128, T>::empty(),
{
    let e = earliest(m);
    assert(is_earliest(m, e));
    assert(due_before(m, now) =~= Map::<u128, T>::empty());
}

/// After the due timeouts are taken out at `now`, the time to wait is the time
/// until the earliest timeout left, and there is none to wait for when
/// nothing is left.
pub proof fn law_wait_after_pop<T>(m: Map<u128, T>, now: u128)
    requires
        m.dom().finite(),
    ensures
        (exists|k: u128| due_from(m, now).contains_key(k)) ==> next_timeout_of(due_from(m, now), now)
            == Some((earliest(due_from(m, now)) - now) as u128),
        (exists|k: u128| due_from(m, now).contains_key(k)) ==> is_earliest(
            due_from(m, now),
            earliest(due_from(m, now)),
        ),
        !(exists|k: u128| due_from(m, now).contains_key(k)) ==> next_timeout_of(
            due_from(m, now),
            now,
        ) is None,
{
    let rest = due_from(m, now);
    assert(rest.dom().subset_of(m.dom()));
    vstd::set_lib::lemma_set_subset_finite(m.dom(), rest.dom());
    if exists|k: u128| rest.contains_key(k) {
        lemma_earliest_exists(rest);
        let e = earliest(rest);
        assert(is_earliest(rest, e));
    }
}

/// A timeout set `duration` after `now` is taken out by a pop at an instant
/// later than `now + duration`, with the value it was set with, and left by
/// any pop before.
pub proof fn law_set_then_due<T>(
    before: Map<u128, T>,
    now: u128,
    duration: u128,
    timeout: T,
    after: Map<u128, T>,
    later: u128,
)
    requires
        set_outcome(before, now, duration, timeout, after),
        now + duration <= u128::MAX,
    ensures
        due_before(after, later).contains_key((now + duration) as u128) <==> now + duration
            < later,
        now + duration < later ==> due_before(after, later)[(now + duration) as u128] == timeout,
{
}

/// Setting a timeout touches only its own instant: when the instant fits,
/// the store afterwards holds the new timeout at `now + duration`, and at
/// every other instant it holds a timeout exactly when it held one before,
/// the same one; when the instant does not fit, nothing changes.
pub proof fn law_set_touches_only_its_instant<T>(
    before: Map<u128, T>,
    now: u128,
    duration: u128,
    timeout: T,
    after: Map<u128, T>,
)
    requires
        set_outcome(before, now, duration, timeout, after),
    ensures
        now + duration <= u128::MAX ==> after.contains_key((now + duration) as u128) && after[(
        now + duration) as u128] == timeout,
        forall|k: u128|
            k != now + duration ==> (#[trigger] after.contains_key(k) == before.contains_key(k)),
        forall|k: u128|
            k != now + duration && #[trigger] before.contains_key(k) ==> after[k] == before[k],
        now + duration > u128::MAX ==> after == before,
{
}

/// The wait computed for a store is the time until its earliest timeout:
/// `Some(d)` exactly when `now + d` is the earliest stored instant, and no
/// limit only when nothing is stored or a stored timeout is already overdue.
pub proof fn law_wait_until_earliest<T>(m: Map<u128, T>, now: u128)
    requires
        m.dom().finite(),
    ensures
        next_timeout_of(m, now) matches Some(d) ==> m.contains_key((now + d) as u128) && now + d
            <= u128::MAX && forall|k: u128| #[trigger] m.contains_key(k) ==> now + d <= k,
        next_timeout_of(m, now) is None <==> (!(exists|k: u128| m.contains_key(k)) || exists|
            k: u128,
        | m.contains_key(k) && k < now),
{
    if exists|k: u128| m.contains_key(k) {
        lemma_earliest_exists(m);
        let e = earliest(m);
        assert(is_earliest(m, e));
        assert(m.contains_key(e));
        if exists|k: u128| m.contains_key(k) && k < now {
            let k = choose|k: u128| m.contains_key(k) && k < now;
            assert(e <= k);
        }
    }
}

/// A pop at `now` takes out exactly the timeouts due strictly before `now`,
/// with their values, and keeps exactly those due at `now` or later.
pub proof fn law_pop_takes_what_is_due<T>(m: Map<u128, T>, now: u128)
    ensures
        forall|k: u128|
            #[trigger] due_before(m, now).contains_key(k) <==> m.contains_key(k) && k < now,
        forall|k: u128|
            #[trigger] due_from(m, now).contains_key(k) <==> m.contains_key(k) && now <= k,
        forall|k: u128| #[trigger] due_before(m, now).contains_key(k) ==> due_before(m, now)[k] == m[k],
        forall|k: u128| #[trigger] due_from(m, now).contains_key(k) ==> due_from(m, now)[k] == m[k],
{
}

/// Store of upcoming timeouts, keyed by the instant at which each is due.
pub struct Timeouts<T> {
    store: BTreeMap<u128, T>,
}

impl<T> View for Timeouts<T> {
    type V = Map<u128, T>;

    /// The stored timeouts, by the instant at which each is due.
    closed spec fn view(&self) -> Map<u128, T> {
        self.store@
    }
}

impl<T> Timeouts<T> {
    /// An empty store.
    pub fn new() -> (r: Self)
        ensures
            r@ == Map::<u128, T>::empty(),
    {
        Timeouts { store: BTreeMap::new() }
    }

    /// Time from `now` until the earliest stored timeout is due; `None` when
    /// nothing is stored or the earliest timeout is already overdue.
    pub fn next_timeout(&self, now: u128) -> (r: Option<u128>)
        ensures
            r == next_timeout_of(self@, now),
            self@.dom().finite(),
    {
        match first_key(&self.store) {
            None => {
                assert(!exists|k: u128| is_earliest(self@, k)) by {
                    if exists|k: u128| is_earliest(self@, k) {
                        let k = choose|k: u128| is_earliest(self@, k);
                        assert(self@.contains_key(k));
                    }
                }
                None
            },
            Some(first) => {
                proof {
                    lemma_earliest_unique(self@, first);
                }
                if now <= first {
                    Some(first - now)
                } else {
                    None
                }
            },
        }
    }

    /// Records `timeout` to fire `duration` after `now`. A timeout already due
    /// at exactly that instant is replaced. When the instant cannot be
    /// represented the timeout is dropped and the store is left unchanged.
    pub fn set(&mut self, now: u128, duration: u128, timeout: T)
        ensures
            set_outcome(old(self)@, now, duration, timeout, final(self)@),
            final(self)@.dom().finite(),
    {
        match now.checked_add(duration) {
            None => {},
            Some(at) => {
                self.store.insert(at, timeout);
            },
        }
    }

    /// Takes out every timeout due strictly before `now`. Returns `None`,
    /// leaving the store as it was, when none is due.
    pub fn pop(&mut self, now: u128) -> (r: Option<BTreeMap<u128, T>>)
        ensures
            final(self)@.dom().finite(),
            r is None ==> final(self)@ == old(self)@ && due_before(old(self)@, now) == Map::<
                u128,
                T,
            >::empty(),
            r matches Some(due) ==> {
                &&& due@ == due_before(old(self)@, now)
                &&& exists|k: u128| due@.contains_key(k)
                &&& final(self)@ == due_from(old(self)@, now)
            },
    {
        let ghost before = self@;
        let later = split_off_at(&mut self.store, now);
        let mut due = later;
        std::mem::swap(&mut due, &mut self.store);
        assert(due@ == due_before(before, now));
        assert(self@ == due_from(before, now));
        if due.is_empty() {
            proof {
                assert(due@ =~= Map::<u128, T>::empty());
                assert(self@ =~= before) by {
                    assert forall|k: u128| before.contains_key(k) implies now <= k by {
                        if k < now {
                            assert(due@.contains_key(k));
                        }
                    }
                }
            }
            None
        } else {
            proof {
                assert(!(due@.dom() =~= Set::<u128>::empty()));
                let w = choose|k: u128| !(due@.dom().contains(k) == Set::<u128>::empty().contains(k));
                assert(due@.contains_key(w));
                assert(exists|k: u128| due@.contains_key(k));
            }
            Some(due)
        }
    }
}

} // verus!
