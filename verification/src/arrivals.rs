//! When each shred arrived on one port.

use std::collections::HashMap;

use vstd::prelude::*;

use crate::shred::{law_key_identifies, ShredId};

verus! {

broadcast use vstd::std_specs::hash::group_hash_axioms;

/// Arrival times by shred. A time is a number of nanoseconds since an origin
/// that all times share.
pub struct Arrivals {
    times: HashMap<u128, u128>,
}

impl View for Arrivals {
    type V = Map<ShredId, u128>;

    closed spec fn view(&self) -> Map<ShredId, u128> {
        Map::new(
            |id: ShredId| self.times@.contains_key(id.key_of()),
            |id: ShredId| self.times@[id.key_of()],
        )
    }
}

/// The age of an arrival; zero for one that lies ahead of `now`.
pub open spec fn age(now: u128, time: u128) -> u128 {
    if time <= now {
        (now - time) as u128
    } else {
        0
    }
}

/// The arrivals that are younger than `timeout`.
pub open spec fn recent(m: Map<ShredId, u128>, now: u128, timeout: u128) -> Map<ShredId, u128> {
    Map::new(
        |id: ShredId| m.contains_key(id) && age(now, m[id]) < timeout,
        |id: ShredId| m[id],
    )
}

/// The recent arrivals are some of the arrivals.
pub proof fn law_recent_is_part(m: Map<ShredId, u128>, now: u128, timeout: u128)
    requires
        m.dom().finite(),
    ensures
        recent(m, now, timeout).submap_of(m),
        recent(m, now, timeout).dom().finite(),
        recent(m, now, timeout).dom().len() <= m.dom().len(),
{
    let r = recent(m, now, timeout);
    assert(r.dom().subset_of(m.dom()));
    vstd::set_lib::lemma_len_subset(r.dom(), m.dom());
}

/// Forgetting old arrivals twice with the same clock and timeout is forgetting
/// them once.
pub proof fn law_recent_twice(m: Map<ShredId, u128>, now: u128, timeout: u128)
    ensures
        recent(recent(m, now, timeout), now, timeout) == recent(m, now, timeout),
{
    assert(recent(recent(m, now, timeout), now, timeout) =~= recent(m, now, timeout));
}

/// What is still recent at a later time was recent before.
pub proof fn law_recent_shrinks(m: Map<ShredId, u128>, now: u128, later: u128, timeout: u128)
    requires
        now <= later,
    ensures
        recent(recent(m, now, timeout), later, timeout) == recent(m, later, timeout),
{
    assert(recent(recent(m, now, timeout), later, timeout) =~= recent(m, later, timeout));
}

impl Arrivals {
    /// Every number in the table stands for a shred.
    pub closed spec fn wf(&self) -> bool {
        forall|k: u128| #[trigger]
            self.times@.contains_key(k) ==> exists|id: ShredId| id.key_of() == k
    }

    /// No arrivals.
    pub fn new() -> (r: Arrivals)
        ensures
            r.wf(),
            r@ == Map::<ShredId, u128>::empty(),
    {
        let r = Arrivals { times: HashMap::new() };
        assert(r@ =~= Map::<ShredId, u128>::empty());
        r
    }

    /// The arrival time of a shred.
    pub fn get(&self, id: &ShredId) -> (r: Option<u128>)
        requires
            self.wf(),
        ensures
            r == (if self@.contains_key(*id) {
                Some(self@[*id])
            } else {
                None
            }),
    {
        match self.times.get(&id.key()) {
            Some(t) => Some(*t),
            None => None,
        }
    }

    /// Whether a shred has arrived.
    pub fn contains(&self, id: &ShredId) -> (r: bool)
        requires
            self.wf(),
        ensures
            r == self@.contains_key(*id),
    {
        self.times.contains_key(&id.key())
    }

    /// Notes an arrival.
    pub fn insert(&mut self, id: ShredId, time: u128)
        requires
            old(self).wf(),
        ensures
            final(self).wf(),
            final(self)@ == old(self)@.insert(id, time),
    {
        self.times.insert(id.key(), time);
        proof {
            assert forall|k: u128| #[trigger] self.times@.contains_key(k) implies exists|i: ShredId|
                i.key_of() == k by {
                if k == id.key_of() {
                } else {
                    assert(old(self).times@.contains_key(k));
                }
            }
            assert forall|other: ShredId| other.key_of() == id.key_of() implies other == id by {
                law_key_identifies(other, id);
            }
            assert(self@ =~= old(self)@.insert(id, time));
        }
    }

    /// The number of shreds that have arrived.
    pub fn len(&self) -> (r: usize)
        requires
            self.wf(),
        ensures
            r == self@.dom().len(),
            self@.dom().finite(),
    {
        proof {
            let g = |k: u128| choose|id: ShredId| id.key_of() == k;
            let keys = self.times@.dom();
            assert forall|k: u128| #[trigger] keys.contains(k) implies g(k).key_of() == k by {
                assert(self.times@.contains_key(k));
            }
            assert(keys.map(g) =~= self@.dom()) by {
                assert forall|id: ShredId| #[trigger] self@.dom().contains(id) implies keys.map(
                    g,
                ).contains(id) by {
                    assert(keys.contains(id.key_of()));
                    law_key_identifies(g(id.key_of()), id);
                }
            }
            vstd::set_lib::lemma_map_size(keys, self@.dom(), g);
        }
        self.times.len()
    }

    /// Forgets the arrivals that are not younger than `timeout`.
    pub fn retain_recent(&mut self, now: u128, timeout: u128)
        requires
            old(self).wf(),
        ensures
            final(self).wf(),
            final(self)@ == recent(old(self)@, now, timeout),
    {
        let mut kept: HashMap<u128, u128> = HashMap::new();
        let ghost m = self.times@;
        for e in it: self.times.iter()
            invariant
                m == self.times@,
                forall|k: u128| #[trigger]
                    kept@.contains_key(k) ==> m.contains_key(k) && kept@[k] == m[k] && age(now, m[k])
                        < timeout,
                forall|i: int|
                    0 <= i < it.index() ==> (age(now, *(#[trigger] it.seq()[i]).1) < timeout
                        ==> kept@.contains_key(*it.seq()[i].0)),
        {
            let t: u128 = *e.1;
            let a: u128 = if t <= now {
                now - t
            } else {
                0
            };
            if a < timeout {
                kept.insert(*e.0, t);
            }
        }
        self.times = kept;
        proof {
            assert forall|id: ShredId| recent(old(self)@, now, timeout).contains_key(id) implies #[trigger] self@.contains_key(
                id,
            ) by {
                assert(m.contains_key(id.key_of()));
            }
            assert(self@ =~= recent(old(self)@, now, timeout));
        }
    }
}

} // verus!
