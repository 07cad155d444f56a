//! A pool that allocates objects in batches and hands each one out through
//! an owning handle.
//!
//! A [`Pool`] keeps its storage in segments of equal size. A segment is
//! allocated once and is never resized, moved or given back while the pool
//! is alive, so the address of a slot stays valid for the life of the pool.
//! Released slots are registered in a [`Registry`] and reused, most recently
//! released first, before the pool grows by another segment.
//!
//! An [`Object`] is the handle of one occupied slot. It is not copyable and
//! is consumed when the slot is released, so that a slot has at most one
//! handle at any time.

use crate::layout::layout_fits;
use crate::layout::lemma_round_up;
use crate::layout::lemma_round_up_least;
use crate::layout::round_up;
use crate::layout::slot_stride;
use crate::layout::slots_per_segment;
use crate::registry::Registry;
use crate::state::PoolState;
use std::marker::PhantomData;
use vstd::layout::align_of;
use vstd::layout::layout_for_type_is_valid;
use vstd::layout::size_of;
use vstd::prelude::*;

verus! {

/// A fast allocator of objects of one type. It allocates storage a segment
/// at a time and hands the ownership of each stored value to an `Object`.
///
/// Storing a value first looks for a vacant slot and takes the most recently
/// released one. Where none is vacant the pool grows by one segment. When an
/// object is released its slot is registered for reuse; segments are given
/// back only when the pool itself is dropped.
pub struct Pool<T> {
    data: Vec<Vec<Option<T>>>,
    free: Registry,
    batch: usize,
    stride: usize,
    used: usize,
}

/// The handle of one occupied slot of a `Pool`, and the owner of the value
/// in it.
///
/// The slot is given back by `recover` or `release`. A handle that is
/// dropped without either leaves its slot occupied for as long as the pool
/// lives.
pub struct Object<T> {
    slot: usize,
    marker: PhantomData<T>,
}

/// The figures that describe how much a pool has allocated.
pub struct Summary {
    /// The number of segments.
    pub blocks: usize,
    /// The number of slots in a segment.
    pub batch: usize,
    /// The distance in bytes from one slot to the next.
    pub stride: usize,
    /// The number of bytes in all segments.
    pub bytes: usize,
    /// The number of slots in all segments.
    pub capacity: usize,
}

/// The size of a cache line that `with_batch_size` pads slots to.
pub const CACHE_LINE_SIZE: usize = 64;

/// Why a pool could not be made.
#[derive(Debug, PartialEq, Eq, Structural)]
pub enum ConfigError {
    /// The element type has no size, so that its slots would have no
    /// addresses of their own.
    ZeroSizedType,
    /// A segment was to hold no slots.
    ZeroBatchSize,
    /// One segment alone would not fit the address space.
    TooLarge,
}

/// The slot at address `a` is slot `a % batch` of segment `a / batch`, and
/// the address is within `segments` segments just when that segment is.
proof fn lemma_locate(a: int, batch: int, segments: int)
    requires
        batch > 0,
        0 <= a,
        0 <= segments,
    ensures
        a == (a / batch) * batch + a % batch,
        0 <= a % batch < batch,
        0 <= a / batch,
        a < segments * batch <==> a / batch < segments,
{
    vstd::arithmetic::div_mod::lemma_fundamental_div_mod(a, batch);
    vstd::arithmetic::div_mod::lemma_mod_bound(a, batch);
    vstd::arithmetic::div_mod::lemma_div_pos_is_pos(a, batch);
    vstd::arithmetic::mul::lemma_mul_is_commutative(a / batch, batch);
    let q = a / batch;
    if q < segments {
        assert((q + 1) * batch <= segments * batch) by (nonlinear_arith)
            requires
                q + 1 <= segments,
                batch > 0,
        ;
        assert((q + 1) * batch == q * batch + batch) by (nonlinear_arith);
    } else {
        assert(segments * batch <= q * batch) by (nonlinear_arith)
            requires
                segments <= q,
                batch > 0,
        ;
    }
}

/// Writing `new` into the slot at `slot` changes the occupied slots at that
/// address and nowhere else.
proof fn lemma_cell_update<T>(before: &Pool<T>, after: &Pool<T>, slot: usize, new: Option<T>)
    requires
        before.batch > 0,
        after.batch == before.batch,
        forall|k: int|
            0 <= k < before.data@.len() ==> (#[trigger] before.data@[k])@.len() == before.batch,
        slot < before.data@.len() * before.batch,
        after.data@.len() == before.data@.len(),
        after.data@[slot as int / before.batch as int]@ == before.data@[slot as int
            / before.batch as int]@.update(slot as int % before.batch as int, new),
        forall|j: int|
            0 <= j < before.data@.len() && j != slot as int / before.batch as int
                ==> after.data@[j] == before.data@[j],
    ensures
        forall|k: int|
            0 <= k < after.data@.len() ==> (#[trigger] after.data@[k])@.len() == after.batch,
        after.cell(slot) == new,
        after@.live == match new {
            Some(value) => before@.live.insert(slot, value),
            None => before@.live.remove(slot),
        },
{
    let batch = before.batch as int;
    let segments = before.data@.len() as int;
    lemma_locate(slot as int, batch, segments);
    assert forall|k: int| 0 <= k < after.data@.len() implies (#[trigger] after.data@[k])@.len()
        == after.batch by {
        if k != slot as int / batch {
            assert(after.data@[k] == before.data@[k]);
        }
        assert(before.data@[k]@.len() == batch);
    }
    let expected = match new {
        Some(value) => before@.live.insert(slot, value),
        None => before@.live.remove(slot),
    };
    assert forall|a: usize| a != slot implies after.occupied(a) == before.occupied(a) && (
    before.occupied(a) ==> after.cell(a) == before.cell(a)) by {
        lemma_locate(a as int, batch, segments);
        if a < segments * batch {
            let k = a as int / batch;
            if k != slot as int / batch {
                assert(after.data@[k] == before.data@[k]);
            } else {
                assert(a as int % batch != slot as int % batch);
                assert(before.data@[k]@.len() == batch);
            }
        }
    }
    assert(after@.live =~= expected);
}

impl<T> View for Pool<T> {
    type V = PoolState<T>;

    closed spec fn view(&self) -> PoolState<T> {
        PoolState {
            batch: self.batch as nat,
            stride: self.stride as nat,
            segments: self.data@.len(),
            free: self.free@,
            live: Map::new(|a: usize| self.occupied(a), |a: usize| self.cell(a).unwrap()),
        }
    }
}

impl<T> Pool<T> {
    /// What the slot at `addr` holds.
    spec fn cell(&self, addr: usize) -> Option<T> {
        self.data@[addr as int / self.batch as int]@[addr as int % self.batch as int]
    }

    /// Whether `addr` is the address of a slot that holds a value.
    spec fn occupied(&self, addr: usize) -> bool {
        addr < self.data@.len() * self.batch && self.cell(addr).is_some()
    }

    /// How the fields stand for the state, whatever the registry holds.
    spec fn shaped(&self) -> bool {
        &&& self.batch > 0
        &&& forall|k: int| 0 <= k < self.data@.len() ==> (#[trigger] self.data@[k])@.len() == self.batch
        &&& self@.live.dom().finite()
        &&& self.used == self@.live.dom().len()
    }

    /// The invariant of the pool, with one slot in neither state.
    spec fn holed(&self, hole: usize) -> bool {
        self.shaped() && self@.consistent(Some(hole))
    }

    /// The invariant of the pool: its state is well-formed, and the segments
    /// hold what the state says.
    pub closed spec fn wf(&self) -> bool {
        self.shaped() && self@.wf()
    }

    /// A pool that is well-formed has a well-formed state.
    pub proof fn lemma_wf(&self)
        requires
            self.wf(),
        ensures
            self@.wf(),
    {
    }

    /// Creates a pool whose segments hold `batch_size` slots each.
    ///
    /// With `align_to_cache_line` the stride from slot to slot is rounded up
    /// to whole cache lines, so that no two slots share a line.
    pub fn with_batch_size(batch_size: usize, align_to_cache_line: bool) -> (made: Result<
        Pool<T>,
        ConfigError,
    >)
        ensures
            made matches Ok(pool) ==> pool.wf() && pool@ == PoolState::<T>::empty(
                batch_size as nat,
                slot_stride(
                    size_of::<T>(),
                    align_of::<T>(),
                    align_to_cache_line,
                    CACHE_LINE_SIZE as nat,
                ),
            ) && pool@.can_push(),
            made.is_ok() <==> size_of::<T>() != 0 && batch_size != 0 && batch_size * slot_stride(
                size_of::<T>(),
                align_of::<T>(),
                align_to_cache_line,
                CACHE_LINE_SIZE as nat,
            ) <= usize::MAX,
            made == Err::<Pool<T>, ConfigError>(ConfigError::ZeroSizedType) <==> size_of::<T>()
                == 0,
            made == Err::<Pool<T>, ConfigError>(ConfigError::ZeroBatchSize) <==> size_of::<T>()
                != 0 && batch_size == 0,
    {
        layout_for_type_is_valid::<T>();
        let size = core::mem::size_of::<T>();
        let align = core::mem::align_of::<T>();
        if size == 0 {
            return Err(ConfigError::ZeroSizedType);
        }
        if batch_size == 0 {
            return Err(ConfigError::ZeroBatchSize);
        }
        proof {
            lemma_round_up(size as nat, align as nat);
            lemma_round_up_least(size as nat, align as nat, size as nat);
            lemma_round_up(size as nat, CACHE_LINE_SIZE as nat);
        }
        let stride = if align_to_cache_line {
            if size > usize::MAX - (CACHE_LINE_SIZE - 1) {
                proof {
                    assert(batch_size * round_up(size as nat, CACHE_LINE_SIZE as nat) > usize::MAX)
                        by (nonlinear_arith)
                        requires
                            batch_size >= 1,
                            round_up(size as nat, CACHE_LINE_SIZE as nat) >= size,
                            size > usize::MAX - 63,
                            round_up(size as nat, CACHE_LINE_SIZE as nat) % 64 == 0,
                            usize::MAX % 64 == 63,
                    ;
                }
                return Err(ConfigError::TooLarge);
            }
            ((CACHE_LINE_SIZE + size - 1) / CACHE_LINE_SIZE) * CACHE_LINE_SIZE
        } else {
            size
        };
        match batch_size.checked_mul(stride) {
            None => Err(ConfigError::TooLarge),
            Some(_) => Ok(Pool::from_parts(batch_size, stride)),
        }
    }

    /// Creates a pool for the usual cache: lines of 64 bytes in 64 sets,
    /// slots not padded to cache lines.
    pub fn new() -> (pool: Pool<T>)
        requires
            size_of::<T>() != 0,
            layout_fits::<T>(false, 64, 64),
        ensures
            pool.wf(),
            pool@ == PoolState::<T>::empty(
                slots_per_segment(slot_stride(size_of::<T>(), align_of::<T>(), false, 64), 64, 64),
                slot_stride(size_of::<T>(), align_of::<T>(), false, 64),
            ),
            pool@.can_push(),
    {
        Pool::with_params(false)
    }

    /// Creates a pool for the usual cache: lines of 64 bytes in 64 sets.
    ///
    /// With `align_to_cache` each slot starts on a cache line of its own,
    /// which speeds up access from several threads to neighbouring objects
    /// and costs memory and locality in a single thread.
    pub fn with_params(align_to_cache: bool) -> (pool: Pool<T>)
        requires
            size_of::<T>() != 0,
            layout_fits::<T>(align_to_cache, 64, 64),
        ensures
            pool.wf(),
            pool@ == PoolState::<T>::empty(
                slots_per_segment(
                    slot_stride(size_of::<T>(), align_of::<T>(), align_to_cache, 64),
                    64,
                    64,
                ),
                slot_stride(size_of::<T>(), align_of::<T>(), align_to_cache, 64),
            ),
            pool@.can_push(),
    {
        Pool::with_system_params(align_to_cache, 64, 64)
    }

    /// Creates a pool for a cache of `number_of_sets` sets of lines of
    /// `cache_line_size` bytes. A segment holds as many slots as fit into
    /// `number_of_sets * cache_line_size` bytes, and at least one.
    ///
    /// With `align_to_cache` each slot starts on a cache line of its own.
    pub fn with_system_params(
        align_to_cache: bool,
        cache_line_size: usize,
        number_of_sets: usize,
    ) -> (pool: Pool<T>)
        requires
            cache_line_size != 0,
            number_of_sets != 0,
            size_of::<T>() != 0,
            layout_fits::<T>(align_to_cache, cache_line_size as nat, number_of_sets as nat),
        ensures
            pool.wf(),
            pool@ == PoolState::<T>::empty(
                slots_per_segment(
                    slot_stride(
                        size_of::<T>(),
                        align_of::<T>(),
                        align_to_cache,
                        cache_line_size as nat,
                    ),
                    cache_line_size as nat,
                    number_of_sets as nat,
                ),
                slot_stride(
                    size_of::<T>(),
                    align_of::<T>(),
                    align_to_cache,
                    cache_line_size as nat,
                ),
            ),
            pool@.can_push(),
    {
        layout_for_type_is_valid::<T>();
        let size = core::mem::size_of::<T>();
        let align = core::mem::align_of::<T>();
        proof {
            // the size of a type is a multiple of its alignment
            vstd::arithmetic::div_mod::lemma_fundamental_div_mod(size as int, align as int);
            assert(align <= size) by (nonlinear_arith)
                requires
                    size == align * (size as int / align as int),
                    size > 0,
                    align > 0,
            ;
            lemma_round_up(size as nat, align as nat);
            lemma_round_up_least(size as nat, align as nat, size as nat);
            lemma_round_up(size as nat, cache_line_size as nat);
        }
        let padded = ((size + align - 1) / align) * align;
        let stride = if align_to_cache {
            ((cache_line_size + padded - 1) / cache_line_size) * cache_line_size
        } else {
            padded
        };
        let fit = number_of_sets * cache_line_size / stride;
        let batch = if fit >= 1 {
            fit
        } else {
            1
        };
        Pool::from_parts(batch, stride)
    }

    /// A pool without segments, whose segments will hold `batch` slots at
    /// a distance of `stride` bytes.
    pub(crate) fn from_parts(batch: usize, stride: usize) -> (pool: Pool<T>)
        requires
            batch > 0,
            stride > 0,
            batch * stride <= usize::MAX,
        ensures
            pool.wf(),
            pool@ == PoolState::<T>::empty(batch as nat, stride as nat),
            pool@.can_push(),
    {
        let pool = Pool { data: Vec::new(), free: Registry::new(), batch, stride, used: 0 };
        proof {
            assert(pool@.live =~= Map::<usize, T>::empty());
            assert(pool@.bytes() == 0) by (nonlinear_arith)
                requires
                    pool@.bytes() == 0 * pool@.batch * pool@.stride,
            ;
            assert(pool@.capacity() == 0) by (nonlinear_arith)
                requires
                    pool@.capacity() == 0 * pool@.batch,
            ;
            assert((0 + 1) * pool@.batch * pool@.stride == batch * stride) by (nonlinear_arith)
                requires
                    pool@.batch == batch,
                    pool@.stride == stride,
            ;
        }
        pool
    }
}

impl<T> Pool<T> {
    /// Stores `obj` in the pool and returns the handle that owns it.
    ///
    /// The value goes to the most recently released slot. Where no slot is
    /// vacant the pool grows by one segment, whose first slot the value
    /// takes. No slot that a handle already refers to is used, and nothing
    /// stored earlier moves or changes.
    pub fn push(&mut self, obj: T) -> (object: Object<T>)
        requires
            old(self).wf(),
            old(self)@.can_push(),
        ensures
            final(self).wf(),
            final(self)@ == old(self)@.push(obj),
            object.addr() == old(self)@.next_slot(),
            !old(self)@.live.dom().contains(object.addr()),
    {
        let ghost value = obj;
        let ghost start = *self;
        let slot = match self.free.try_pop() {
            Some(x) => {
                proof {
                    assert(self@.live =~= start@.live);
                    start@.lemma_acquire();
                }
                x
            },
            None => {
                proof {
                    assert(self@.live =~= start@.live);
                }
                self.expand()
            },
        };
        let ghost found = *self;
        proof {
            lemma_locate(slot as int, self.batch as int, self.data@.len() as int);
            assert(found@.capacity() <= found@.bytes()) by (nonlinear_arith)
                requires
                    found@.bytes() == found@.capacity() * found@.stride,
                    found@.stride > 0,
            ;
        }
        let k = slot / self.batch;
        let i = slot % self.batch;
        self.used = self.used + 1;
        self.data[k][i] = Some(obj);
        proof {
            lemma_cell_update(&found, &*self, slot, Some(value));
            found@.lemma_fill(slot, value);
        }
        Object { slot, marker: PhantomData }
    }

    /// Finds a slot where a first look at the registry found none: looks
    /// once more, and only then adds a segment, takes its first slot and
    /// registers the others.
    fn expand(&mut self) -> (slot: usize)
        requires
            old(self).wf(),
            old(self)@.can_push(),
        ensures
            final(self).holed(slot),
            final(self)@ == old(self)@.acquire(),
            slot == old(self)@.next_slot(),
    {
        let ghost start = *self;
        proof {
            start@.lemma_acquire();
        }
        if let Some(x) = self.free.try_pop() {
            proof {
                assert(self@.live =~= start@.live);
            }
            return x;
        }
        proof {
            assert(start@.capacity() == self.data@.len() * self.batch);
            assert(start@.capacity() <= start@.bytes()) by (nonlinear_arith)
                requires
                    start@.bytes() == start@.capacity() * start@.stride,
                    start@.stride > 0,
            ;
            assert(start@.acquire().capacity() == start@.capacity() + self.batch)
                by (nonlinear_arith)
                requires
                    start@.acquire().capacity() == (start@.segments + 1) * self.batch,
                    start@.capacity() == start@.segments * self.batch,
            ;
            assert(start@.acquire().capacity() <= start@.acquire().bytes()) by (nonlinear_arith)
                requires
                    start@.acquire().bytes() == start@.acquire().capacity() * start@.stride,
                    start@.stride > 0,
            ;
        }
        let base = self.data.len() * self.batch;
        let mut segment: Vec<Option<T>> = Vec::with_capacity(self.batch);
        let mut n: usize = 0;
        while n < self.batch
            invariant
                n <= self.batch,
                segment@.len() == n,
                forall|j: int| 0 <= j < n ==> (#[trigger] segment@[j]).is_none(),
            decreases self.batch - n,
        {
            segment.push(None);
            n = n + 1;
        }
        // starting from 1 since slot 0 is the one handed out
        let mut i: usize = 1;
        while i < self.batch
            invariant
                1 <= i <= self.batch,
                base + self.batch <= usize::MAX,
                self.batch == start.batch,
                self.stride == start.stride,
                self.used == start.used,
                self.data == start.data,
                self.free@ == Seq::new((i - 1) as nat, |j: int| (base + 1 + j) as usize),
            decreases self.batch - i,
        {
            self.free.push(base + i);
            i = i + 1;
            proof {
                assert(self.free@ =~= Seq::new((i - 1) as nat, |j: int| (base + 1 + j) as usize));
            }
        }
        self.data.push(segment);
        proof {
            let batch = self.batch as int;
            let segments = start.data@.len() as int;
            assert forall|a: usize| self.occupied(a) == start.occupied(a) && (start.occupied(a)
                ==> self.cell(a) == start.cell(a)) by {
                lemma_locate(a as int, batch, segments);
                lemma_locate(a as int, batch, segments + 1);
                if a as int / batch < segments {
                    assert(self.data@[a as int / batch] == start.data@[a as int / batch]);
                } else if a as int / batch == segments {
                    assert(self.data@[a as int / batch]@[a as int % batch].is_none());
                }
            }
            assert(self@.live =~= start@.live);
            assert(self@.free =~= start@.acquire().free);
            assert forall|k: int| 0 <= k < self.data@.len() implies (#[trigger] self.data@[k])@.len()
                == self.batch by {
                if k < segments {
                    assert(self.data@[k] == start.data@[k]);
                }
            }
        }
        base
    }

    /// Takes the value out of the occupied slot at `slot`, which is then in
    /// neither state until it is registered.
    fn take(&mut self, slot: usize) -> (value: T)
        requires
            old(self).wf(),
            old(self)@.live.dom().contains(slot),
        ensures
            final(self).holed(slot),
            final(self)@ == (PoolState { live: old(self)@.live.remove(slot), ..old(self)@ }),
            value == old(self)@.live[slot],
    {
        let ghost start = *self;
        proof {
            lemma_locate(slot as int, self.batch as int, self.data@.len() as int);
            start@.lemma_vacate(slot);
        }
        let k = slot / self.batch;
        let i = slot % self.batch;
        self.used = self.used - 1;
        let value = self.data[k][i].take().unwrap();
        proof {
            lemma_cell_update(&start, &*self, slot, None);
        }
        value
    }

    /// Registers the emptied slot at `slot` for reuse. Segments are never
    /// given back.
    fn ret_ptr(&mut self, slot: usize)
        requires
            old(self).holed(slot),
        ensures
            final(self).wf(),
            final(self)@ == (PoolState { free: old(self)@.free.push(slot), ..old(self)@ }),
    {
        let ghost start = *self;
        self.free.push(slot);
        proof {
            assert(self@.live =~= start@.live);
            start@.lemma_register(slot);
        }
    }

    /// Whether the slot that `object` refers to is an occupied slot of this
    /// pool, as it is for every handle that this pool has issued and that
    /// has not been released.
    pub fn holds(&self, object: &Object<T>) -> (held: bool)
        requires
            self.wf(),
        ensures
            held == self@.live.dom().contains(object.addr()),
    {
        let slot = object.slot;
        proof {
            lemma_locate(slot as int, self.batch as int, self.data@.len() as int);
        }
        let k = slot / self.batch;
        if k < self.data.len() {
            self.data[k][slot % self.batch].is_some()
        } else {
            false
        }
    }

    /// Whether `push` can store a value: a slot is vacant, or the address
    /// space has room for one more segment.
    pub fn has_room(&self) -> (room: bool)
        requires
            self.wf(),
        ensures
            room == self@.can_push(),
    {
        proof {
            assert(self@.capacity() <= self@.bytes()) by (nonlinear_arith)
                requires
                    self@.bytes() == self@.capacity() * self@.stride,
                    self@.stride > 0,
            ;
            assert((self@.segments + 1) * self@.batch * self@.stride == self@.bytes() + self@.batch
                * self@.stride) by (nonlinear_arith)
                requires
                    self@.bytes() == self@.segments * self@.batch * self@.stride,
            ;
        }
        let capacity = self.data.len() * self.batch;
        if self.used < capacity {
            return true;
        }
        match self.batch.checked_mul(self.stride) {
            Some(segment_bytes) => capacity * self.stride <= usize::MAX - segment_bytes,
            None => false,
        }
    }

    /// The number of occupied slots: the handles that are outstanding.
    pub fn outstanding(&self) -> (count: usize)
        requires
            self.wf(),
        ensures
            count == self@.live.dom().len(),
    {
        self.used
    }

    /// The number of vacant slots in the registry.
    pub fn available(&self) -> (count: usize)
        requires
            self.wf(),
        ensures
            count == self@.free.len(),
    {
        proof {
            assert(self@.capacity() <= self@.bytes()) by (nonlinear_arith)
                requires
                    self@.bytes() == self@.capacity() * self@.stride,
                    self@.stride > 0,
            ;
        }
        self.data.len() * self.batch - self.used
    }

    /// The figures of the pool: how many segments it has, how many slots a
    /// segment holds and how far apart they are, and how many bytes and
    /// slots that makes in all.
    pub fn summary(&self) -> (summary: Summary)
        requires
            self.wf(),
        ensures
            summary.blocks == self@.segments,
            summary.batch == self@.batch,
            summary.stride == self@.stride,
            summary.bytes == self@.bytes(),
            summary.capacity == self@.capacity(),
    {
        proof {
            assert(self@.capacity() <= self@.bytes()) by (nonlinear_arith)
                requires
                    self@.bytes() == self@.capacity() * self@.stride,
                    self@.stride > 0,
            ;
        }
        let pages = self.data.len();
        let capacity = pages * self.batch;
        Summary {
            blocks: pages,
            batch: self.batch,
            stride: self.stride,
            bytes: capacity * self.stride,
            capacity,
        }
    }
}

impl<T> Object<T> {
    /// The address of the slot that the handle refers to. It never changes.
    pub closed spec fn addr(&self) -> usize {
        self.slot
    }

    /// The address of the slot that the handle refers to.
    pub fn address(&self) -> (addr: usize)
        ensures
            addr == self.addr(),
    {
        self.slot
    }

    /// The value that the handle owns.
    pub fn deref<'a>(&self, pool: &'a Pool<T>) -> (value: &'a T)
        requires
            pool.wf(),
            pool@.live.dom().contains(self.addr()),
        ensures
            *value == pool@.live[self.addr()],
    {
        proof {
            lemma_locate(self.slot as int, pool.batch as int, pool.data@.len() as int);
        }
        let k = self.slot / pool.batch;
        let i = self.slot % pool.batch;
        pool.data[k][i].as_ref().unwrap()
    }

    /// The value that the handle owns, to be changed in place. Nothing else
    /// in the pool changes.
    pub fn deref_mut<'a>(&self, pool: &'a mut Pool<T>) -> (value: &'a mut T)
        requires
            old(pool).wf(),
            old(pool)@.live.dom().contains(self.addr()),
        ensures
            *value == old(pool)@.live[self.addr()],
            final(pool).wf(),
            final(pool)@ == old(pool)@.store(self.addr(), *final(value)),
    {
        let ghost start = *pool;
        proof {
            lemma_locate(self.slot as int, pool.batch as int, pool.data@.len() as int);
        }
        let k = self.slot / pool.batch;
        let i = self.slot % pool.batch;
        proof {
            start@.lemma_vacate(self.slot);
            assert forall|after: Pool<T>|
                after.batch == start.batch && after.stride == start.stride && after.used
                    == start.used && after.free == start.free && after.data@.len()
                    == start.data@.len() && after.data@[k as int]@.len() == start.data@[k as int]@.len()
                    && after.data@[k as int]@[i as int].is_some() && after.data@[k as int]@
                    == start.data@[k as int]@.update(i as int, after.data@[k as int]@[i as int])
                    && (forall|j: int|
                    0 <= j < start.data@.len() && j != k ==> after.data@[j]
                        == start.data@[j]) implies #[trigger] after.wf() && after@
                == start@.store(self.slot, after.data@[k as int]@[i as int].unwrap()) by {
                let new = after.data@[k as int]@[i as int].unwrap();
                lemma_cell_update(&start, &after, self.slot, Some(new));
                (PoolState { live: start@.live.remove(self.slot), ..start@ }).lemma_fill(
                    self.slot,
                    new,
                );
                assert(start@.live.remove(self.slot).insert(self.slot, new) =~= start@.live.insert(
                    self.slot,
                    new,
                ));
                assert(after@.live.dom() =~= start@.live.dom());
            }
        }
        let value = pool.data[k][i].as_mut().unwrap();
        value
    }

    /// Takes the value out of the pool and releases its slot, which becomes
    /// the first one that the pool uses again.
    pub fn recover(t: Self, pool: &mut Pool<T>) -> (value: T)
        requires
            old(pool).wf(),
            old(pool)@.live.dom().contains(t.addr()),
        ensures
            final(pool).wf(),
            final(pool)@ == old(pool)@.release(t.addr()),
            value == old(pool)@.live[t.addr()],
    {
        let ret = pool.take(t.slot);
        pool.ret_ptr(t.slot);
        ret
    }

    /// Drops the value and releases its slot, as `recover` does.
    pub fn release(t: Self, pool: &mut Pool<T>)
        requires
            old(pool).wf(),
            old(pool)@.live.dom().contains(t.addr()),
        ensures
            final(pool).wf(),
            final(pool)@ == old(pool)@.release(t.addr()),
    {
        let _ = pool.take(t.slot);
        pool.ret_ptr(t.slot);
    }
}

} // verus!
