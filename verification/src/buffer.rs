//! The bounded replay buffer: an append-only-until-full, then
//! FIFO-evicting sequence of training examples, with in-place update of
//! the value field for the terminal back-fill.

use vstd::prelude::*;

verus! {

broadcast use vstd::seq_lib::group_seq_properties;


/// One training example: the state at a ply, the exact visit-count policy
/// target as a rational — `weights[a] / total` for each action `a` — and
/// the value target, patched in once the game has ended.
pub struct ReplayEntry<E> {
    pub state: E,
    pub weights: Vec<u64>,
    pub total: u64,
    pub value: i64,
}

/// A capacity-bounded FIFO store of replay entries.
pub struct ReplayBuffer<E> {
    entries: Vec<ReplayEntry<E>>,
    capacity: usize,
}

impl<E> View for ReplayBuffer<E> {
    type V = Seq<ReplayEntry<E>>;

    closed spec fn view(&self) -> Seq<ReplayEntry<E>> {
        self.entries@
    }
}

/// How many of the oldest entries must leave so that `k` more fit.
pub open spec fn evict_count(len: nat, k: nat, cap: nat) -> int {
    if len + k > cap {
        len + k - cap
    } else {
        0
    }
}

impl<E> ReplayBuffer<E> {
    pub closed spec fn cap_spec(self) -> nat {
        self.capacity as nat
    }

    /// The buffer never holds more than its capacity.
    pub closed spec fn inv(self) -> bool {
        &&& self.entries@.len() <= self.capacity
        &&& 1 <= self.capacity <= usize::MAX / 2
    }

    /// What the invariant gives every caller: a positive capacity that
    /// the length never exceeds.
    pub proof fn lemma_inv_cap(self)
        requires
            self.inv(),
        ensures
            1 <= self.cap_spec(),
            self@.len() <= self.cap_spec(),
            self.cap_spec() <= usize::MAX / 2,
    {
    }

    pub fn new(capacity: usize) -> (b: Self)
        requires
            1 <= capacity <= usize::MAX / 2,
        ensures
            b.inv(),
            b@ == Seq::<ReplayEntry<E>>::empty(),
            b.cap_spec() == capacity as nat,
    {
        let b = ReplayBuffer { entries: Vec::new(), capacity };
        proof {
            assert(b@ =~= Seq::<ReplayEntry<E>>::empty());
        }
        b
    }

    pub fn len(&self) -> (n: usize)
        ensures
            n as nat == self@.len(),
    {
        self.entries.len()
    }

    pub fn capacity(&self) -> (n: usize)
        ensures
            n as nat == self.cap_spec(),
    {
        self.capacity
    }

    pub fn get(&self, i: usize) -> (e: &ReplayEntry<E>)
        requires
            (i as nat) < self@.len(),
        ensures
            *e == self@[i as int],
    {
        &self.entries[i]
    }

    /// Evicts exactly as many of the oldest entries as are needed for `k`
    /// more to fit, preserving the relative order of the rest.
    pub fn make_room(&mut self, k: usize)
        requires
            old(self).inv(),
            k as nat <= old(self).cap_spec(),
        ensures
            final(self).inv(),
            final(self).cap_spec() == old(self).cap_spec(),
            final(self)@ == old(self)@.skip(
                evict_count(old(self)@.len(), k as nat, old(self).cap_spec()),
            ),
    {
        while self.entries.len() + k > self.capacity
            invariant
                self.entries@.len() <= self.capacity,
                1 <= self.capacity <= usize::MAX / 2,
                k <= self.capacity,
                self.capacity == old(self).cap_spec(),
                self.entries@.len() <= old(self)@.len(),
                self.entries@.len() == old(self)@.len() || self.entries@.len() + k
                    >= self.capacity,
                self.entries@ =~= old(self)@.skip(old(self)@.len() - self.entries@.len()),
            decreases self.entries@.len(),
        {
            let ghost prev = self.entries@;
            let ghost d = old(self)@.len() - prev.len();
            let _evicted = self.entries.remove(0);
            proof {
                assert(self.entries@ == prev.remove(0));
                assert(self.entries@ =~= prev.subrange(1, prev.len() as int));
                assert forall|j: int| 0 <= j < self.entries@.len() implies self.entries@[j]
                    == old(self)@.skip(d + 1)[j] by {
                    assert(self.entries@[j] == prev[j + 1]);
                    assert(prev[j + 1] == old(self)@.skip(d)[j + 1]);
                    assert(old(self)@.skip(d)[j + 1] == old(self)@[d + j + 1]);
                    assert(old(self)@.skip(d + 1)[j] == old(self)@[d + 1 + j]);
                }
                assert(self.entries@ =~= old(self)@.skip(d + 1));
            }
        }
        proof {
            assert(self.entries@ =~= old(self)@.skip(
                evict_count(old(self)@.len(), k as nat, old(self).cap_spec()),
            ));
        }
    }

    /// Appends one entry, evicting the oldest if the buffer is full.
    pub fn add(&mut self, state: E, weights: Vec<u64>, total: u64, value: i64)
        requires
            old(self).inv(),
        ensures
            final(self).inv(),
            final(self).cap_spec() == old(self).cap_spec(),
            final(self)@ == old(self)@.skip(
                evict_count(old(self)@.len(), 1, old(self).cap_spec()),
            ).push((ReplayEntry { state, weights, total, value })),
            final(self)@.len() == if old(self)@.len() < old(self).cap_spec() {
                old(self)@.len() + 1
            } else {
                old(self)@.len() + 0
            },
    {
        self.make_room(1);
        self.entries.push(ReplayEntry { state, weights, total, value });
    }

    /// Rewrites the value target of entry `i` in place.
    pub fn set_value(&mut self, i: usize, value: i64)
        requires
            old(self).inv(),
            (i as nat) < old(self)@.len(),
        ensures
            final(self).inv(),
            final(self).cap_spec() == old(self).cap_spec(),
            final(self)@.len() == old(self)@.len(),
            forall|j: int| 0 <= j < old(self)@.len() && j != i ==> final(self)@[j] == old(
                self,
            )@[j],
            final(self)@[i as int].state == old(self)@[i as int].state,
            final(self)@[i as int].weights == old(self)@[i as int].weights,
            final(self)@[i as int].total == old(self)@[i as int].total,
            final(self)@[i as int].value == value,
    {
        let e = &mut self.entries[i];
        e.value = value;
    }
}

} // verus!
