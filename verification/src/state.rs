//! The state of a pool as a mathematical value, the steps that a pool takes
//! on it, and what holds of every sequence of steps.

use vstd::prelude::*;

verus! {

/// The state of a pool as its contracts speak of it.
pub struct PoolState<T> {
    /// The number of slots in a segment.
    pub batch: nat,
    /// The distance in bytes from one slot to the next.
    pub stride: nat,
    /// The number of segments allocated so far.
    pub segments: nat,
    /// The registry: the addresses of the vacant slots, the most recently
    /// released one last.
    pub free: Seq<usize>,
    /// The occupied slots, each with the value it holds.
    pub live: Map<usize, T>,
}

impl<T> PoolState<T> {
    /// A pool without segments.
    pub open spec fn empty(batch: nat, stride: nat) -> Self {
        PoolState { batch, stride, segments: 0, free: Seq::empty(), live: Map::empty() }
    }

    /// The number of slots in all segments. The slots of segment `k` have
    /// the addresses from `k * batch` up to, not including, `(k + 1) * batch`.
    pub open spec fn capacity(self) -> nat {
        self.segments * self.batch
    }

    /// The number of bytes that the segments take.
    pub open spec fn bytes(self) -> nat {
        self.segments * self.batch * self.stride
    }

    /// Every slot is in exactly one of two states: vacant and in the
    /// registry, once, or occupied. With a `hole`, that one slot is in
    /// neither state: it has been taken from the registry and not been
    /// filled yet, or emptied and not been registered yet.
    pub open spec fn consistent(self, hole: Option<usize>) -> bool {
        &&& self.batch > 0
        &&& self.stride > 0
        &&& self.bytes() <= usize::MAX
        &&& self.free.no_duplicates()
        &&& self.live.dom().finite()
        &&& forall|a: usize| #[trigger] self.live.dom().contains(a) ==> a < self.capacity()
        &&& forall|a: usize| #[trigger]
            self.free.contains(a) ==> a < self.capacity() && !self.live.dom().contains(a) && hole
                != Some(a)
        &&& forall|a: usize|
            a < self.capacity() && !(#[trigger] self.live.dom().contains(a)) && hole != Some(a)
                ==> self.free.contains(a)
        &&& self.free.len() + self.live.dom().len() + (if hole.is_some() {
            1nat
        } else {
            0nat
        }) == self.capacity()
        &&& hole matches Some(h) ==> h < self.capacity() && !self.live.dom().contains(h)
    }

    /// The invariant of a pool between two operations.
    pub open spec fn wf(self) -> bool {
        self.consistent(None)
    }

    /// Whether a value can be stored: a slot is vacant, or the address
    /// space has room for one more segment.
    pub open spec fn can_push(self) -> bool {
        self.free.len() > 0 || (self.segments + 1) * self.batch * self.stride <= usize::MAX
    }

    /// The slot that the next value goes to: the most recently released one,
    /// or the first slot of a new segment where none is vacant.
    pub open spec fn next_slot(self) -> usize {
        if self.free.len() > 0 {
            self.free.last()
        } else {
            self.capacity() as usize
        }
    }

    /// The state after a slot has been found for the next value: the slot
    /// has left the registry, or a segment has been added whose first slot
    /// it is and whose other slots have entered the registry in rising
    /// order.
    pub open spec fn acquire(self) -> Self {
        if self.free.len() > 0 {
            PoolState { free: self.free.drop_last(), ..self }
        } else {
            PoolState {
                segments: self.segments + 1,
                free: Seq::new(
                    (self.batch - 1) as nat,
                    |i: int| (self.capacity() + 1 + i) as usize,
                ),
                ..self
            }
        }
    }

    /// The state after `value` has been stored.
    pub open spec fn push(self, value: T) -> Self {
        let found = self.acquire();
        PoolState { live: found.live.insert(self.next_slot(), value), ..found }
    }

    /// The state after the slot at `addr` has been emptied and registered.
    pub open spec fn release(self, addr: usize) -> Self {
        PoolState { free: self.free.push(addr), live: self.live.remove(addr), ..self }
    }

    /// The state after the value in the slot at `addr` has been replaced.
    pub open spec fn store(self, addr: usize, value: T) -> Self {
        PoolState { live: self.live.insert(addr, value), ..self }
    }

    /// Finding a slot keeps the state consistent, with that slot as hole.
    pub proof fn lemma_acquire(self)
        requires
            self.wf(),
            self.can_push(),
        ensures
            self.acquire().consistent(Some(self.next_slot())),
            self.next_slot() < self.acquire().capacity(),
    {
        let after = self.acquire();
        let slot = self.next_slot();
        if self.free.len() > 0 {
            let last = self.free.len() - 1;
            assert(self.free.contains(slot));
            assert forall|a: usize| #[trigger] after.free.contains(a) implies a < after.capacity()
                && !after.live.dom().contains(a) && Some(slot) != Some(a) by {
                let i = choose|i: int| 0 <= i < after.free.len() && after.free[i] == a;
                assert(self.free[i] == a);
                assert(self.free.contains(a));
            }
            assert forall|a: usize|
                a < after.capacity() && !(#[trigger] after.live.dom().contains(a)) && Some(slot)
                    != Some(a) implies after.free.contains(a) by {
                assert(self.free.contains(a));
                let i = choose|i: int| 0 <= i < self.free.len() && self.free[i] == a;
                assert(after.free[i] == a);
            }
        } else {
            let base = self.capacity();
            let batch = self.batch;
            assert(after.capacity() == base + batch) by (nonlinear_arith)
                requires
                    after.capacity() == (self.segments + 1) * batch,
                    base == self.segments * batch,
            ;
            assert(after.capacity() <= after.bytes()) by (nonlinear_arith)
                requires
                    after.bytes() == after.capacity() * after.stride,
                    after.stride > 0,
            ;
            assert forall|a: usize| #[trigger] after.free.contains(a) implies base < a < base
                + batch by {
                let i = choose|i: int| 0 <= i < after.free.len() && after.free[i] == a;
            }
            assert forall|a: usize|
                a < after.capacity() && !(#[trigger] after.live.dom().contains(a)) && Some(slot)
                    != Some(a) implies after.free.contains(a) by {
                if a < base {
                    assert(self.free.contains(a));
                    assert(false);
                }
                assert(after.free[a - base - 1] == a);
            }
        }
    }

    /// Storing a value keeps the state well-formed. The slot it goes to was
    /// not occupied: no two handles are ever issued for one slot.
    pub proof fn lemma_push(self, value: T)
        requires
            self.wf(),
            self.can_push(),
        ensures
            self.push(value).wf(),
            !self.live.dom().contains(self.next_slot()),
            self.push(value).live.dom().contains(self.next_slot()),
            self.push(value).live[self.next_slot()] == value,
    {
        self.lemma_acquire();
        let found = self.acquire();
        found.lemma_fill(self.next_slot(), value);
    }

    /// Filling the hole makes the state well-formed.
    pub proof fn lemma_fill(self, hole: usize, value: T)
        requires
            self.consistent(Some(hole)),
        ensures
            self.store(hole, value).wf(),
    {
        let after = self.store(hole, value);
        assert forall|a: usize|
            a < after.capacity() && !(#[trigger] after.live.dom().contains(a)) implies after.free.contains(
            a,
        ) by {
            assert(!self.live.dom().contains(a));
        }
    }

    /// Emptying an occupied slot leaves it as the hole.
    pub proof fn lemma_vacate(self, addr: usize)
        requires
            self.wf(),
            self.live.dom().contains(addr),
        ensures
            (PoolState { live: self.live.remove(addr), ..self }).consistent(Some(addr)),
    {
        let after = PoolState { live: self.live.remove(addr), ..self };
        assert forall|a: usize|
            a < after.capacity() && !(#[trigger] after.live.dom().contains(a)) && Some(addr)
                != Some(a) implies after.free.contains(a) by {
            assert(!self.live.dom().contains(a));
        }
    }

    /// Registering the hole makes the state well-formed.
    pub proof fn lemma_register(self, hole: usize)
        requires
            self.consistent(Some(hole)),
        ensures
            (PoolState { free: self.free.push(hole), ..self }).wf(),
    {
        let after = PoolState { free: self.free.push(hole), ..self };
        assert forall|a: usize| #[trigger] after.free.contains(a) implies a < after.capacity()
            && !after.live.dom().contains(a) by {
            let i = choose|i: int| 0 <= i < after.free.len() && after.free[i] == a;
            if i < self.free.len() {
                assert(self.free[i] == a);
                assert(self.free.contains(a));
            }
        }
        assert forall|a: usize|
            a < after.capacity() && !(#[trigger] after.live.dom().contains(a)) implies after.free.contains(
            a,
        ) by {
            if a == hole {
                assert(after.free[self.free.len() as int] == a);
            } else {
                assert(self.free.contains(a));
                let i = choose|i: int| 0 <= i < self.free.len() && self.free[i] == a;
                assert(after.free[i] == a);
            }
        }
        assert forall|i: int, j: int|
            0 <= i < after.free.len() && 0 <= j < after.free.len() && i != j implies after.free[i]
            != after.free[j] by {
            if i == self.free.len() {
                assert(self.free[j] == after.free[j]);
                assert(self.free.contains(after.free[j]));
            } else if j == self.free.len() {
                assert(self.free[i] == after.free[i]);
                assert(self.free.contains(after.free[i]));
            }
        }
    }

    /// Releasing an occupied slot keeps the state well-formed.
    pub proof fn lemma_release(self, addr: usize)
        requires
            self.wf(),
            self.live.dom().contains(addr),
        ensures
            self.release(addr).wf(),
    {
        self.lemma_vacate(addr);
        (PoolState { live: self.live.remove(addr), ..self }).lemma_register(addr);
    }

    /// The state after the values have been stored one after the other.
    pub open spec fn push_all(self, values: Seq<T>) -> Self
        decreases values.len(),
    {
        if values.len() == 0 {
            self
        } else {
            self.push_all(values.drop_last()).push(values.last())
        }
    }

    /// Whether the values can be stored one after the other.
    pub open spec fn can_push_all(self, values: Seq<T>) -> bool
        decreases values.len(),
    {
        values.len() == 0 || (self.can_push_all(values.drop_last()) && self.push_all(
            values.drop_last(),
        ).can_push())
    }

    /// The slots that the values go to, in the order of the values.
    pub open spec fn issued(self, values: Seq<T>) -> Seq<usize>
        decreases values.len(),
    {
        if values.len() == 0 {
            Seq::empty()
        } else {
            self.issued(values.drop_last()).push(self.push_all(values.drop_last()).next_slot())
        }
    }

    /// The state after the slots have been released one after the other.
    pub open spec fn release_all(self, addrs: Seq<usize>) -> Self
        decreases addrs.len(),
    {
        if addrs.len() == 0 {
            self
        } else {
            self.release_all(addrs.drop_last()).release(addrs.last())
        }
    }

    /// Two values stored one after the other go to different slots.
    pub proof fn lemma_unique(self, first: T, second: T)
        requires
            self.wf(),
            self.can_push(),
            self.push(first).can_push(),
        ensures
            self.push(first).next_slot() != self.next_slot(),
    {
        self.lemma_push(first);
        self.push(first).lemma_push(second);
    }

    /// Storing a value moves and changes nothing that was stored before:
    /// an occupied slot stays occupied, at its address and with its value,
    /// and no segment goes away.
    pub proof fn lemma_push_stable(self, value: T, addr: usize)
        requires
            self.wf(),
            self.can_push(),
            self.live.dom().contains(addr),
        ensures
            self.push(value).live.dom().contains(addr),
            self.push(value).live[addr] == self.live[addr],
            self.push(value).segments >= self.segments,
            self.push(value).batch == self.batch,
    {
        self.lemma_push(value);
    }

    /// Releasing a slot moves and changes nothing in the other occupied
    /// slots, and no segment goes away.
    pub proof fn lemma_release_stable(self, released: usize, addr: usize)
        requires
            self.wf(),
            self.live.dom().contains(released),
            self.live.dom().contains(addr),
            addr != released,
        ensures
            self.release(released).live.dom().contains(addr),
            self.release(released).live[addr] == self.live[addr],
            self.release(released).segments == self.segments,
            self.release(released).batch == self.batch,
    {
    }

    /// A value that is stored and taken out again comes back unchanged, and
    /// the pool then holds what it held before.
    pub proof fn lemma_round_trip(self, value: T)
        requires
            self.wf(),
            self.can_push(),
        ensures
            self.push(value).live[self.next_slot()] == value,
            self.push(value).release(self.next_slot()).live == self.live,
            self.push(value).release(self.next_slot()).next_slot() == self.next_slot(),
    {
        self.lemma_push(value);
        assert(self.push(value).release(self.next_slot()).live =~= self.live);
    }

    /// Storing values one after the other keeps the state well-formed. The
    /// slots issued are distinct, they are the slots that have become
    /// occupied, and whatever was occupied before still is.
    pub proof fn lemma_push_all(self, values: Seq<T>)
        requires
            self.wf(),
            self.can_push_all(values),
        ensures
            self.push_all(values).wf(),
            self.push_all(values).batch == self.batch,
            self.push_all(values).stride == self.stride,
            self.push_all(values).segments >= self.segments,
            self.issued(values).len() == values.len(),
            self.issued(values).no_duplicates(),
            self.push_all(values).live.dom().len() == self.live.dom().len() + values.len(),
            forall|a: usize|
                #![trigger self.push_all(values).live.dom().contains(a)]
                self.push_all(values).live.dom().contains(a) <==> self.live.dom().contains(a)
                    || self.issued(values).contains(a),
            forall|a: usize|
                #![trigger self.issued(values).contains(a)]
                self.issued(values).contains(a) ==> !self.live.dom().contains(a),
        decreases values.len(),
    {
        if values.len() > 0 {
            let front = values.drop_last();
            let before = self.push_all(front);
            let slot = before.next_slot();
            self.lemma_push_all(front);
            before.lemma_push(values.last());
            let addrs = self.issued(values);
            assert(addrs.drop_last() =~= self.issued(front));
            assert(!self.issued(front).contains(slot));
            assert forall|a: usize| #[trigger]
                self.push_all(values).live.dom().contains(a) <==> self.live.dom().contains(a)
                    || addrs.contains(a) by {
                if addrs.contains(a) {
                    let i = choose|i: int| 0 <= i < addrs.len() && addrs[i] == a;
                    if i < front.len() {
                        assert(self.issued(front)[i] == a);
                        assert(self.issued(front).contains(a));
                    }
                }
                if self.issued(front).contains(a) {
                    let i = choose|i: int|
                        0 <= i < self.issued(front).len() && self.issued(front)[i] == a;
                    assert(addrs[i] == a);
                }
                if a == slot {
                    assert(addrs[front.len() as int] == a);
                }
            }
            assert forall|a: usize| #[trigger] addrs.contains(a) implies !self.live.dom().contains(
                a,
            ) by {
                let i = choose|i: int| 0 <= i < addrs.len() && addrs[i] == a;
                if i < front.len() {
                    assert(self.issued(front)[i] == a);
                    assert(self.issued(front).contains(a));
                } else {
                    assert(before.live.dom().contains(a) <==> self.live.dom().contains(a)
                        || self.issued(front).contains(a));
                }
            }
            assert forall|i: int, j: int|
                0 <= i < addrs.len() && 0 <= j < addrs.len() && i != j implies addrs[i]
                != addrs[j] by {
                if i < front.len() {
                    assert(self.issued(front)[i] == addrs[i]);
                    assert(self.issued(front).contains(addrs[i]));
                }
                if j < front.len() {
                    assert(self.issued(front)[j] == addrs[j]);
                    assert(self.issued(front).contains(addrs[j]));
                }
            }
        }
    }

    /// Releasing distinct occupied slots one after the other keeps the state
    /// well-formed. Each of them enters the registry, and no segment comes
    /// or goes.
    pub proof fn lemma_release_all(self, addrs: Seq<usize>)
        requires
            self.wf(),
            addrs.no_duplicates(),
            forall|i: int| 0 <= i < addrs.len() ==> self.live.dom().contains(#[trigger] addrs[i]),
        ensures
            self.release_all(addrs).wf(),
            self.release_all(addrs).batch == self.batch,
            self.release_all(addrs).stride == self.stride,
            self.release_all(addrs).segments == self.segments,
            self.release_all(addrs).free == self.free + addrs,
            self.release_all(addrs).live.dom().len() + addrs.len() == self.live.dom().len(),
            forall|a: usize|
                #![trigger self.release_all(addrs).live.dom().contains(a)]
                self.release_all(addrs).live.dom().contains(a) <==> self.live.dom().contains(a)
                    && !addrs.contains(a),
        decreases addrs.len(),
    {
        if addrs.len() > 0 {
            let front = addrs.drop_last();
            let before = self.release_all(front);
            let last = addrs.last();
            self.lemma_release_all(front);
            assert(!front.contains(last)) by {
                if front.contains(last) {
                    let i = choose|i: int| 0 <= i < front.len() && front[i] == last;
                    assert(addrs[i] == addrs[addrs.len() - 1]);
                }
            }
            assert(before.live.dom().contains(last));
            before.lemma_release(last);
            assert(self.release_all(addrs).free =~= self.free + addrs);
            assert forall|a: usize| #[trigger]
                self.release_all(addrs).live.dom().contains(a) <==> self.live.dom().contains(a)
                    && !addrs.contains(a) by {
                if addrs.contains(a) {
                    let i = choose|i: int| 0 <= i < addrs.len() && addrs[i] == a;
                    if i < front.len() {
                        assert(front[i] == a);
                        assert(front.contains(a));
                    }
                }
                if front.contains(a) {
                    let i = choose|i: int| 0 <= i < front.len() && front[i] == a;
                    assert(addrs[i] == a);
                }
                if a == last {
                    assert(addrs[addrs.len() - 1] == a);
                }
            }
        }
    }

    /// A pool with enough vacant slots stores values without growing: each
    /// value takes a slot from the registry, and no segment is added.
    pub proof fn lemma_push_all_reuses(self, values: Seq<T>)
        requires
            self.wf(),
            values.len() <= self.free.len(),
        ensures
            self.can_push_all(values),
            self.push_all(values).wf(),
            self.push_all(values).segments == self.segments,
            self.push_all(values).free == self.free.subrange(0, self.free.len() - values.len()),
        decreases values.len(),
    {
        if values.len() > 0 {
            let front = values.drop_last();
            self.lemma_push_all_reuses(front);
            let before = self.push_all(front);
            before.lemma_push(values.last());
            assert(self.push_all(values).free =~= self.free.subrange(
                0,
                self.free.len() - values.len(),
            ));
        } else {
            assert(self.free =~= self.free.subrange(0, self.free.len() as int));
        }
    }

    /// After values have been stored and their slots released, in any order,
    /// as many values again are stored without another segment: the slots
    /// are used again.
    pub proof fn lemma_reuse(self, first: Seq<T>, released: Seq<usize>, second: Seq<T>)
        requires
            self.wf(),
            self.can_push_all(first),
            released.no_duplicates(),
            released.len() == first.len(),
            forall|i: int|
                0 <= i < released.len() ==> self.issued(first).contains(#[trigger] released[i]),
            second.len() <= first.len(),
        ensures
            self.push_all(first).release_all(released).can_push_all(second),
            self.push_all(first).release_all(released).push_all(second).wf(),
            self.push_all(first).release_all(released).push_all(second).segments == self.push_all(
                first,
            ).segments,
    {
        self.lemma_push_all(first);
        let filled = self.push_all(first);
        assert forall|i: int| 0 <= i < released.len() implies filled.live.dom().contains(
            #[trigger] released[i],
        ) by {
            assert(self.issued(first).contains(released[i]));
        }
        filled.lemma_release_all(released);
        filled.release_all(released).lemma_push_all_reuses(second);
    }

    /// A pool that starts without segments has, after `n` values have been
    /// stored and none released, the least number of segments that hold `n`
    /// values, and the slots that are left over are in the registry.
    pub proof fn lemma_growth(batch: nat, stride: nat, values: Seq<T>)
        requires
            batch > 0,
            stride > 0,
            Self::empty(batch, stride).can_push_all(values),
        ensures
            Self::empty(batch, stride).push_all(values).wf(),
            Self::empty(batch, stride).push_all(values).live.dom().len() == values.len(),
            Self::empty(batch, stride).push_all(values).free.len() + values.len() == Self::empty(
                batch,
                stride,
            ).push_all(values).segments * batch,
            Self::empty(batch, stride).push_all(values).free.len() < batch,
        decreases values.len(),
    {
        let start = Self::empty(batch, stride);
        assert(start.bytes() == 0 && start.capacity() == 0) by (nonlinear_arith)
            requires
                start.bytes() == 0 * batch * stride,
                start.capacity() == 0 * batch,
        ;
        assert(start.wf());
        if values.len() > 0 {
            let front = values.drop_last();
            Self::lemma_growth(batch, stride, front);
            start.lemma_push_all(front);
            let before = start.push_all(front);
            before.lemma_push(values.last());
            if before.free.len() == 0 {
                assert((before.segments + 1) * batch == before.segments * batch + batch)
                    by (nonlinear_arith);
            }
        } else {
            assert(start.live.dom() =~= Set::<usize>::empty());
        }
    }

    /// Storing one value more than a segment holds, in a pool that starts
    /// without segments, takes exactly two segments.
    pub proof fn lemma_growth_threshold(batch: nat, stride: nat, values: Seq<T>)
        requires
            batch > 0,
            stride > 0,
            values.len() == batch + 1,
            Self::empty(batch, stride).can_push_all(values),
        ensures
            Self::empty(batch, stride).push_all(values).segments == 2,
            Self::empty(batch, stride).push_all(values).free.len() == batch - 1,
    {
        Self::lemma_growth(batch, stride, values);
        let after = Self::empty(batch, stride).push_all(values);
        let segments = after.segments;
        assert(segments == 2) by (nonlinear_arith)
            requires
                batch > 0,
                segments * batch >= batch + 1,
                segments * batch < batch + 1 + batch,
        ;
    }
}

} // verus!
