//! A queue-like buffer that keeps its items in chunks from a `Pool`, so
//! that many buffers share the memory of one pool.
//!
//! A `TinyBufferPool` owns the pool of chunks. A `TinyBuffer` owns the
//! handles of the chunks that hold its items, and every operation on it is
//! given the pool that these chunks are in.

use crate::pool::Object;
use crate::pool::Pool;
use crate::layout::slots_per_segment;
use crate::small_buffer::pour;
use crate::state::PoolState;
use vstd::layout::size_of;
use vstd::prelude::*;

verus! {

/// The number of items in one chunk of a buffer.
pub const BUFFER_SIZE: usize = 16;

/// One chunk of a buffer: up to `BUFFER_SIZE` items.
pub struct TinyLinkedBuffer<T> {
    data: Vec<T>,
}

/// The pool that the chunks of `TinyBuffer`s are allocated in.
pub struct TinyBufferPool<T> {
    pool: Pool<TinyLinkedBuffer<T>>,
}

/// A buffer of items in chunks of a `TinyBufferPool`. Items are added at
/// the end; they leave only all together, through `drain`, in the order in
/// which they came.
pub struct TinyBuffer<T> {
    chunks: Vec<Object<TinyLinkedBuffer<T>>>,
    len: usize,
}

/// A position among the items of a buffer, from which they are visited one
/// after the other to be changed in place.
pub struct IterMut {
    next: usize,
    left: usize,
}

/// The items taken out of a buffer, to be handed on one at a time. Items
/// that are not asked for are dropped with the `Drain`.
pub struct Drain<T> {
    rest: Vec<T>,
}

impl<T> View for TinyLinkedBuffer<T> {
    type V = Seq<T>;

    /// The items in the chunk, oldest first.
    closed spec fn view(&self) -> Seq<T> {
        self.data@
    }
}

impl<T> View for TinyBufferPool<T> {
    type V = PoolState<TinyLinkedBuffer<T>>;

    /// The state of the pool of chunks.
    closed spec fn view(&self) -> PoolState<TinyLinkedBuffer<T>> {
        self.pool@
    }
}

impl<T> View for Drain<T> {
    type V = Seq<T>;

    /// The items still to come, in the order in which they will.
    closed spec fn view(&self) -> Seq<T> {
        self.rest@.reverse()
    }
}

impl<T> TinyLinkedBuffer<T> {
    /// An empty chunk.
    fn new() -> (chunk: Self)
        ensures
            chunk@ == Seq::<T>::empty(),
    {
        TinyLinkedBuffer { data: Vec::with_capacity(BUFFER_SIZE) }
    }
}

impl<T> TinyBufferPool<T> {
    /// The invariant of the pool of chunks.
    pub closed spec fn wf(&self) -> bool {
        self.pool.wf()
    }

    /// A pool of chunks that is well-formed has a well-formed state.
    pub proof fn lemma_wf(&self)
        requires
            self.wf(),
        ensures
            self@.wf(),
    {
        self.pool.lemma_wf();
    }

    /// Creates a pool without chunks. Its segments hold as many chunks as
    /// fit into the 64 sets of 64 bytes of the usual cache, and at least one.
    pub fn new() -> (pool: Self)
        ensures
            pool.wf(),
            pool@.segments == 0,
            pool@.free == Seq::<usize>::empty(),
            pool@.live == Map::<usize, TinyLinkedBuffer<T>>::empty(),
            pool@.stride == if size_of::<TinyLinkedBuffer<T>>() == 0 {
                1
            } else {
                size_of::<TinyLinkedBuffer<T>>()
            },
            pool@.batch == slots_per_segment(pool@.stride, 64, 64),
            pool@.can_push(),
    {
        let size = core::mem::size_of::<TinyLinkedBuffer<T>>();
        let stride = if size == 0 {
            1
        } else {
            size
        };
        let fit = 64 * 64 / stride;
        let batch = if fit >= 1 {
            fit
        } else {
            1
        };
        proof {
            vstd::arithmetic::div_mod::lemma_fundamental_div_mod(4096, stride as int);
            vstd::arithmetic::div_mod::lemma_mod_bound(4096, stride as int);
            vstd::arithmetic::mul::lemma_mul_is_commutative(fit as int, stride as int);
            if fit < 1 {
                assert(1 * stride == stride) by (nonlinear_arith);
            }
        }
        TinyBufferPool { pool: Pool::from_parts(batch, stride) }
    }

    /// Creates an empty buffer for chunks of this pool. It holds no chunk
    /// yet, so that the pool stays as it is.
    pub fn create(&self) -> (buffer: TinyBuffer<T>)
        requires
            self.wf(),
        ensures
            buffer.wf(self),
            buffer.items(self) == Seq::<T>::empty(),
            buffer.spec_len() == 0,
            buffer.chunk_addrs() == Seq::<usize>::empty(),
            forall|addr: usize| !buffer.owns(addr),
    {
        let buffer = TinyBuffer { chunks: Vec::new(), len: 0 };
        proof {
            assert(buffer.items(self) =~= Seq::<T>::empty());
            assert(buffer.chunk_addrs() =~= Seq::<usize>::empty());
        }
        buffer
    }

    /// Whether a buffer can take a chunk from this pool.
    pub fn has_room(&self) -> (room: bool)
        requires
            self.wf(),
        ensures
            room == self@.can_push(),
    {
        self.pool.has_room()
    }
}

impl<T> TinyBuffer<T> {
    /// Whether the chunk at `addr` is one of this buffer.
    pub closed spec fn owns(&self, addr: usize) -> bool {
        exists|k: int| 0 <= k < self.chunks@.len() && (#[trigger] self.chunks@[k]).addr() == addr
    }

    /// The addresses of the chunks of this buffer, in the order of the
    /// items that they hold.
    pub closed spec fn chunk_addrs(&self) -> Seq<usize> {
        Seq::new(self.chunks@.len(), |k: int| self.chunks@[k].addr())
    }

    /// A buffer owns the chunks whose addresses it holds.
    pub proof fn lemma_owns(&self, addr: usize)
        ensures
            self.owns(addr) <==> self.chunk_addrs().contains(addr),
    {
        if self.owns(addr) {
            let k = choose|k: int|
                0 <= k < self.chunks@.len() && (#[trigger] self.chunks@[k]).addr() == addr;
            assert(self.chunk_addrs()[k] == addr);
        }
        if self.chunk_addrs().contains(addr) {
            let k = choose|k: int|
                0 <= k < self.chunk_addrs().len() && self.chunk_addrs()[k] == addr;
            assert(self.chunks@[k].addr() == addr);
        }
    }

    /// The items of chunk `k`, as the pool holds them.
    spec fn chunk(&self, pool: &TinyBufferPool<T>, k: int) -> Seq<T> {
        pool@.live[self.chunks@[k].addr()]@
    }

    /// The number of items that chunk `k` holds in a buffer of `len` items.
    spec fn share(len: int, k: int) -> int {
        if len >= (k + 1) * BUFFER_SIZE {
            BUFFER_SIZE as int
        } else {
            len - k * BUFFER_SIZE
        }
    }

    /// The items in the buffer, oldest first.
    pub closed spec fn items(&self, pool: &TinyBufferPool<T>) -> Seq<T> {
        Seq::new(
            self.len as nat,
            |i: int| self.chunk(pool, i / BUFFER_SIZE as int)[i % BUFFER_SIZE as int],
        )
    }

    /// The number of items in the buffer.
    pub closed spec fn spec_len(&self) -> nat {
        self.len as nat
    }

    /// The invariant of a buffer with its pool: its chunks are distinct
    /// occupied slots of the pool, all of them full but the last, which
    /// holds an item at least.
    pub closed spec fn wf(&self, pool: &TinyBufferPool<T>) -> bool {
        &&& pool.wf()
        &&& self.chunks@.len() * BUFFER_SIZE >= self.len
        &&& self.len > (self.chunks@.len() - 1) * BUFFER_SIZE
        &&& forall|k: int|
            0 <= k < self.chunks@.len() ==> pool@.live.dom().contains(
                (#[trigger] self.chunks@[k]).addr(),
            )
        &&& forall|j: int, k: int|
            0 <= j < k < self.chunks@.len() ==> (#[trigger] self.chunks@[j]).addr()
                != (#[trigger] self.chunks@[k]).addr()
        &&& forall|k: int|
            0 <= k < self.chunks@.len() ==> (#[trigger] self.chunk(pool, k)).len() == Self::share(
                self.len as int,
                k,
            )
    }

    /// A buffer is what its own chunks hold: where the pool changes only in
    /// chunks of other buffers, this buffer stays as it is.
    pub proof fn lemma_frame(&self, before: &TinyBufferPool<T>, after: &TinyBufferPool<T>)
        requires
            self.wf(before),
            after.wf(),
            forall|addr: usize|
                self.owns(addr) ==> after@.live.dom().contains(addr) && after@.live[addr]
                    == before@.live[addr],
        ensures
            self.wf(after),
            self.items(after) == self.items(before),
    {
        assert forall|k: int| 0 <= k < self.chunks@.len() implies after@.live.dom().contains(
            (#[trigger] self.chunks@[k]).addr(),
        ) && self.chunk(after, k) == self.chunk(before, k) by {
            assert(self.owns(self.chunks@[k].addr()));
        }
        assert forall|k: int| 0 <= k < self.chunks@.len() implies (#[trigger] self.chunk(
            after,
            k,
        )).len() == Self::share(self.len as int, k) by {
            assert(self.chunk(after, k) == self.chunk(before, k));
        }
        assert(self.items(after) =~= self.items(before)) by {
            assert forall|i: int| 0 <= i < self.len implies self.items(after)[i] == self.items(
                before,
            )[i] by {
                let k = i / BUFFER_SIZE as int;
                assert(self.chunk(after, k) == self.chunk(before, k));
            }
        }
    }

    /// The number of items in the buffer.
    pub fn len(&self) -> (len: usize)
        ensures
            len == self.spec_len(),
    {
        self.len
    }

    /// Adds the item at the end. Where the last chunk is full the buffer
    /// takes a new one from the pool. Chunks of other buffers stay as they
    /// are.
    pub fn push(&mut self, pool: &mut TinyBufferPool<T>, item: T)
        requires
            old(self).wf(old(pool)),
            old(self).spec_len() < usize::MAX,
            old(pool)@.can_push(),
        ensures
            final(self).wf(final(pool)),
            final(self).items(final(pool)) == old(self).items(old(pool)).push(item),
            final(self).spec_len() == old(self).spec_len() + 1,
            old(self).spec_len() % (BUFFER_SIZE as nat) != 0 ==> final(self).chunk_addrs() == old(self).chunk_addrs() && final(pool)@.segments == old(pool)@.segments && final(pool)@.free
                == old(pool)@.free && final(pool)@.live.dom() == old(pool)@.live.dom(),
            old(self).spec_len() % (BUFFER_SIZE as nat) == 0 ==> final(self).chunk_addrs() == old(self).chunk_addrs().push(old(pool)@.next_slot()) && final(pool)@.segments == old(pool)@.acquire().segments && final(pool)@.free == old(pool)@.acquire().free && final(pool)@.live.dom() == old(pool)@.live.dom().insert(old(pool)@.next_slot()),
            final(pool)@.batch == old(pool)@.batch,
            final(pool)@.stride == old(pool)@.stride,
            forall|addr: usize|
                old(pool)@.live.dom().contains(addr) && !old(self).owns(addr) ==> final(pool)@.live.dom().contains(addr) && final(pool)@.live[addr] == old(pool)@.live[addr],
            forall|addr: usize|
                final(self).owns(addr) ==> old(self).owns(addr) || !old(pool)@.live.dom().contains(
                    addr,
                ),
    {
        let pos = self.len;
        let k = pos / BUFFER_SIZE;
        let ghost start = *pool;
        let ghost before = *self;
        if k == self.chunks.len() {
            let handle = pool.pool.push(TinyLinkedBuffer::new());
            self.chunks.push(handle);
        }
        let ghost grown = *pool;
        let ghost addr = self.chunks@[k as int].addr();
        proof {
            assert(forall|j: int| 0 <= j < before.chunks@.len() ==> self.chunks@[j] == before.chunks@[j]);
            assert(forall|j: int|
                0 <= j < before.chunks@.len() ==> before.owns(
                    (#[trigger] before.chunks@[j]).addr(),
                ) && start@.live.dom().contains(before.chunks@[j].addr()));
            assert(grown@.live.dom().contains(addr));
            assert(grown@.live[addr]@.len() == pos - k * BUFFER_SIZE) by {
                if k < before.chunks@.len() {
                    assert(before.chunk(&start, k as int).len() == Self::share(pos as int, k as int));
                    assert(grown@.live[addr] == start@.live[addr]);
                }
            }
        }
        let chunk = self.chunks[k].deref_mut(&mut pool.pool);
        chunk.data.push(item);
        self.len = pos + 1;
        proof {
            let last = pool@.live[addr];
            assert(last@ == grown@.live[addr]@.push(item));
            assert forall|j: int| 0 <= j < self.chunks@.len() && j != k implies self.chunk(
                &*pool,
                j,
            ) == before.chunk(&start, j) && self.chunks@[j].addr() != addr by {
                assert(self.chunks@[j] == before.chunks@[j]);
                assert(before.owns(before.chunks@[j].addr()));
            }
            assert forall|j: int| 0 <= j < self.chunks@.len() implies (#[trigger] self.chunk(
                &*pool,
                j,
            )).len() == Self::share(self.len as int, j) by {
                if j != k {
                    assert(self.chunk(&*pool, j) == before.chunk(&start, j));
                    assert(before.chunk(&start, j).len() == Self::share(pos as int, j));
                }
            }
            assert forall|i: int| 0 <= i < pos implies self.items(&*pool)[i] == before.items(
                &start,
            )[i] by {
                let j = i / BUFFER_SIZE as int;
                if j != k {
                    assert(self.chunk(&*pool, j) == before.chunk(&start, j));
                } else {
                    assert(before.chunk(&start, j) == grown@.live[addr]@);
                }
            }
            assert(self.items(&*pool) =~= before.items(&start).push(item));
            assert forall|a: usize|
                start@.live.dom().contains(a) && !before.owns(a) implies pool@.live.dom().contains(
                a,
            ) && pool@.live[a] == start@.live[a] by {
                if k < before.chunks@.len() {
                    assert(before.owns(before.chunks@[k as int].addr()));
                }
            }
            if k == before.chunks@.len() {
                assert(self.chunk_addrs() =~= before.chunk_addrs().push(start@.next_slot()));
                assert(pool@.live.dom() =~= start@.live.dom().insert(start@.next_slot()));
            } else {
                assert(self.chunk_addrs() =~= before.chunk_addrs());
                assert(pool@.live.dom() =~= start@.live.dom());
            }
            assert forall|a: usize| self.owns(a) implies before.owns(a)
                || !start@.live.dom().contains(a) by {
                let j = choose|j: int| 0 <= j < self.chunks@.len() && (#[trigger] self.chunks@[j]).addr() == a;
                if j < before.chunks@.len() {
                    assert(before.chunks@[j].addr() == a);
                }
            }
        }
    }

    /// Takes all items out of the buffer and gives its chunks back to the
    /// pool. Chunks of other buffers stay as they are, and the pool keeps
    /// its segments.
    pub fn drain(&mut self, pool: &mut TinyBufferPool<T>) -> (drain: Drain<T>)
        requires
            old(self).wf(old(pool)),
        ensures
            final(self).wf(final(pool)),
            final(self).items(final(pool)) == Seq::<T>::empty(),
            final(self).spec_len() == 0,
            forall|addr: usize| !final(self).owns(addr),
            drain@ == old(self).items(old(pool)),
            final(self).chunk_addrs() == Seq::<usize>::empty(),
            final(pool)@ == old(pool)@.release_all(old(self).chunk_addrs().reverse()),
            final(pool)@.segments == old(pool)@.segments,
            forall|addr: usize|
                old(pool)@.live.dom().contains(addr) && !old(self).owns(addr) ==> final(pool)@.live.dom().contains(addr) && final(pool)@.live[addr] == old(pool)@.live[addr],
            forall|addr: usize|
                final(pool)@.live.dom().contains(addr) ==> old(pool)@.live.dom().contains(addr),
    {
        let ghost all = self.items(&*pool);
        let ghost start = *pool;
        let ghost before = *self;
        let mut rest: Vec<T> = Vec::new();
        let ghost mut done = Seq::<usize>::empty();
        proof {
            assert(all.subrange(self.len as int, self.len as int) =~= Seq::<T>::empty());
            assert(forall|j: int|
                0 <= j < before.chunks@.len() ==> before.owns(
                    (#[trigger] before.chunks@[j]).addr(),
                ));
        }
        while self.chunks.len() > 0
            invariant
                pool.wf(),
                self.len == before.len,
                before.wf(&start),
                all == before.items(&start),
                self.chunks@.len() <= before.chunks@.len(),
                self.chunks@ == before.chunks@.subrange(0, self.chunks@.len() as int),
                pool@.segments == start@.segments,
                pool@ == start@.release_all(done),
                done == before.chunk_addrs().subrange(
                    self.chunks@.len() as int,
                    before.chunks@.len() as int,
                ).reverse(),
                forall|j: int|
                    0 <= j < self.chunks@.len() ==> pool@.live.dom().contains(
                        (#[trigger] before.chunks@[j]).addr(),
                    ) && pool@.live[before.chunks@[j].addr()] == start@.live[before.chunks@[j].addr()],
                forall|addr: usize|
                    start@.live.dom().contains(addr) && !before.owns(addr)
                        ==> pool@.live.dom().contains(addr) && pool@.live[addr]
                        == start@.live[addr],
                forall|addr: usize|
                    pool@.live.dom().contains(addr) ==> start@.live.dom().contains(addr),
                rest@ == all.subrange(
                    if self.chunks@.len() * BUFFER_SIZE <= self.len {
                        self.chunks@.len() * BUFFER_SIZE
                    } else {
                        self.len as int
                    },
                    self.len as int,
                ).reverse(),
            decreases self.chunks@.len(),
        {
            let ghost k = self.chunks@.len() - 1;
            let handle = self.chunks.pop().unwrap();
            proof {
                assert(handle == before.chunks@[k]);
                assert(before.owns(handle.addr()));
            }
            let mut node = Object::recover(handle, &mut pool.pool);
            pour(&mut node.data, &mut rest);
            proof {
                let released = done.push(handle.addr());
                assert(released.drop_last() =~= done);
                assert(released =~= before.chunk_addrs().subrange(
                    k,
                    before.chunks@.len() as int,
                ).reverse());
                done = released;
                assert(self.chunks@ =~= before.chunks@.subrange(0, k));
                assert(before.chunk(&start, k).len() == Self::share(before.len as int, k));
                let from = k * BUFFER_SIZE;
                let to = if (k + 1) * BUFFER_SIZE <= self.len {
                    (k + 1) * BUFFER_SIZE
                } else {
                    self.len as int
                };
                assert(before.chunk(&start, k) =~= all.subrange(from, to));
                assert(all.subrange(from, self.len as int) =~= all.subrange(from, to)
                    + all.subrange(to, self.len as int));
                assert((all.subrange(from, to) + all.subrange(to, self.len as int)).reverse()
                    =~= all.subrange(to, self.len as int).reverse() + all.subrange(
                    from,
                    to,
                ).reverse());
                assert forall|j: int| 0 <= j < self.chunks@.len() implies pool@.live.dom().contains(
                    (#[trigger] before.chunks@[j]).addr(),
                ) && pool@.live[before.chunks@[j].addr()] == start@.live[before.chunks@[j].addr()] by {
                    assert(before.chunks@[j].addr() != before.chunks@[k].addr());
                }
            }
        }
        self.len = 0;
        proof {
            assert(all.subrange(0, before.len as int) =~= all);
            assert(all.reverse().reverse() =~= all);
            assert(self.items(&*pool) =~= Seq::<T>::empty());
            assert(self.chunk_addrs() =~= Seq::<usize>::empty());
            assert(before.chunk_addrs().subrange(0, before.chunks@.len() as int)
                =~= before.chunk_addrs());
        }
        Drain { rest }
    }

    /// Starts a visit of the items, oldest first.
    pub fn iter_mut(&mut self) -> (iter: IterMut)
        ensures
            *final(self) == *old(self),
            iter.position() == 0,
            iter.end() == old(self).spec_len(),
    {
        IterMut { next: 0, left: self.len }
    }
}

impl IterMut {
    /// The place of the item that comes next.
    pub closed spec fn position(&self) -> nat {
        self.next as nat
    }

    /// The place after the last item to visit.
    pub closed spec fn end(&self) -> nat {
        self.left as nat
    }

    /// Hands on the next item of `buffer`, to be changed in place, if the
    /// visit has not reached the end. Nothing else changes, in this buffer
    /// or in any other.
    pub fn next<'a, T>(
        &mut self,
        buffer: &TinyBuffer<T>,
        pool: &'a mut TinyBufferPool<T>,
    ) -> (item: Option<&'a mut T>)
        requires
            buffer.wf(old(pool)),
            old(self).end() <= buffer.spec_len(),
        ensures
            final(self).end() == old(self).end(),
            old(self).position() >= old(self).end() ==> item.is_none() && *final(self) == *old(self) && *final(pool) == *old(pool),
            old(self).position() < old(self).end() ==> item.is_some() && *item.unwrap() == buffer.items(old(pool))[old(self).position() as int] && final(self).position() == old(self).position() + 1 && buffer.wf(final(pool)) && buffer.items(final(pool))
                == buffer.items(old(pool)).update(
                old(self).position() as int,
                *final(item.unwrap()),
            ) && final(pool)@.segments == old(pool)@.segments && final(pool)@.free == old(pool)@.free
                && final(pool)@.live.dom() == old(pool)@.live.dom() && (forall|addr: usize|
                old(pool)@.live.dom().contains(addr) && !buffer.owns(addr) ==> final(pool)@.live[addr] == old(pool)@.live[addr]),
    {
        if self.next >= self.left {
            return None;
        }
        let pos = self.next;
        self.next = pos + 1;
        let k = pos / BUFFER_SIZE;
        let i = pos % BUFFER_SIZE;
        let ghost start = *pool;
        let ghost before = *buffer;
        let ghost addr = buffer.chunks@[k as int].addr();
        proof {
            assert(before.owns(addr));
            assert(before.chunk(&start, k as int).len() == TinyBuffer::<T>::share(
                before.len as int,
                k as int,
            ));
            start.pool.lemma_wf();
            assert forall|after: TinyBufferPool<T>|
                after.pool.wf() && after.pool@ == start.pool@.store(addr, after.pool@.live[addr])
                    && after.pool@.live[addr].data@ == start.pool@.live[addr].data@.update(
                    i as int,
                    after.pool@.live[addr].data@[i as int],
                ) implies #[trigger] before.wf(&after) && before.items(&after) == before.items(
                &start,
            ).update(pos as int, after.pool@.live[addr].data@[i as int])
                && after@.live.dom() == start@.live.dom() && after@.free == start@.free
                && after@.segments == start@.segments && (forall|a: usize|
                start@.live.dom().contains(a) && !before.owns(a) ==> after@.live[a]
                    == start@.live[a]) by {
                assert forall|j: int| 0 <= j < before.chunks@.len() && j != k implies before.chunk(
                    &after,
                    j,
                ) == before.chunk(&start, j) by {
                    assert(before.chunks@[j].addr() != before.chunks@[k as int].addr());
                }
                assert forall|j: int| 0 <= j < before.chunks@.len() implies (
                #[trigger] before.chunk(&after, j)).len() == TinyBuffer::<T>::share(
                    before.len as int,
                    j,
                ) by {
                    if j != k {
                        assert(before.chunk(&after, j) == before.chunk(&start, j));
                    }
                    assert(before.chunk(&start, j).len() == TinyBuffer::<T>::share(
                        before.len as int,
                        j,
                    ));
                }
                assert(after@.live.dom() =~= start@.live.dom());
                assert forall|n: int| 0 <= n < before.len implies before.items(&after)[n]
                    == before.items(&start).update(
                    pos as int,
                    after.pool@.live[addr].data@[i as int],
                )[n] by {
                    let j = n / BUFFER_SIZE as int;
                    if j != k {
                        assert(before.chunk(&after, j) == before.chunk(&start, j));
                    }
                }
                assert(before.items(&after) =~= before.items(&start).update(
                    pos as int,
                    after.pool@.live[addr].data@[i as int],
                ));
            }
        }
        let chunk = buffer.chunks[k].deref_mut(&mut pool.pool);
        Some(&mut chunk.data[i])
    }
}

impl<T> Drain<T> {
    /// Hands on the oldest item that is left, if there is one.
    pub fn next(&mut self) -> (item: Option<T>)
        ensures
            old(self)@.len() == 0 ==> item.is_none() && final(self)@ == old(self)@,
            old(self)@.len() > 0 ==> item == Some(old(self)@[0]) && final(self)@ == old(self)@.subrange(1, old(self)@.len() as int),
    {
        let item = self.rest.pop();
        proof {
            if old(self).rest@.len() > 0 {
                assert(self.rest@.reverse() =~= old(self).rest@.reverse().subrange(
                    1,
                    old(self).rest@.len() as int,
                ));
            }
        }
        item
    }

    /// The number of items that are left. They are dropped.
    pub fn count(self) -> (count: usize)
        ensures
            count == self@.len(),
    {
        self.rest.len()
    }
}

} // verus!
