//! `SmallBuffer` is a buffer for elements that see little use. Its first
//! chunk holds a few items; when more arrive it chains further chunks,
//! which it keeps for the next burst after the items have been drained.

use vstd::prelude::*;

verus! {

/// The number of items in one chunk of a buffer.
pub const CHUNK_SIZE: usize = 16;

/// A small buffer that grows by chunks. Items are added at the end; they
/// leave only all together, through `drain`, in the order in which they
/// came.
///
/// The buffer is a linked list of chunks. It fits where the usual number of
/// items is low and an occasional peak has to be taken.
pub struct SmallBuffer<T> {
    buf: Vec<T>,
    last_free_slot: usize,
    next: Option<Box<SmallBuffer<T>>>,
}

/// The items taken out of a buffer, to be handed on one at a time. Items
/// that are not asked for are dropped with the `Drain`.
pub struct Drain<T> {
    rest: Vec<T>,
}

impl<T> View for SmallBuffer<T> {
    type V = Seq<T>;

    /// The items in the buffer, oldest first.
    closed spec fn view(&self) -> Seq<T> {
        self.items()
    }
}

impl<T> View for Drain<T> {
    type V = Seq<T>;

    /// The items still to come, in the order in which they will.
    closed spec fn view(&self) -> Seq<T> {
        self.rest@.reverse()
    }
}

/// Moves the items of `from` to the end of `out`, the last one first.
pub(crate) fn pour<T>(from: &mut Vec<T>, out: &mut Vec<T>)
    ensures
        final(from)@ == Seq::<T>::empty(),
        final(out)@ == old(out)@ + old(from)@.reverse(),
{
    let ghost all = from@;
    while from.len() > 0
        invariant
            from@.len() <= all.len(),
            from@ == all.subrange(0, from@.len() as int),
            out@ == old(out)@ + all.subrange(from@.len() as int, all.len() as int).reverse(),
        decreases from@.len(),
    {
        let ghost before = from@;
        let item = from.pop().unwrap();
        out.push(item);
        proof {
            assert(from@ =~= all.subrange(0, from@.len() as int));
            assert(all.subrange(from@.len() as int, all.len() as int).reverse() =~= all.subrange(
                before.len() as int,
                all.len() as int,
            ).reverse().push(item));
        }
    }
    proof {
        assert(from@ =~= Seq::<T>::empty());
        assert(all.subrange(0, all.len() as int) =~= all);
    }
}

impl<T> SmallBuffer<T> {
    /// The items in this chunk and the chunks after it.
    spec fn items(&self) -> Seq<T>
        decreases self,
    {
        match self.next {
            Some(chunk) => self.buf@ + chunk.items(),
            None => self.buf@,
        }
    }

    /// No chunk holds more than it may, and a chunk holds items only when
    /// the one before it is full.
    spec fn chained(&self) -> bool
        decreases self,
    {
        &&& self.buf@.len() <= CHUNK_SIZE
        &&& match self.next {
            Some(chunk) => chunk.chained() && (self.buf@.len() < CHUNK_SIZE ==> chunk.items().len()
                == 0),
            None => true,
        }
    }

    /// The invariant of a buffer: its chunks fill up in order, and its
    /// counter is the number of its items.
    pub closed spec fn wf(&self) -> bool {
        self.chained() && self.last_free_slot == self.items().len()
    }

    /// Creates an empty buffer with room for one chunk of items.
    pub fn new() -> (buffer: Self)
        ensures
            buffer.wf(),
            buffer@ == Seq::<T>::empty(),
    {
        SmallBuffer { buf: Vec::with_capacity(CHUNK_SIZE), last_free_slot: 0, next: None }
    }

    /// Adds the item at the end, chaining a chunk where the last one is
    /// full.
    pub fn push(&mut self, item: T)
        requires
            old(self).wf(),
            old(self)@.len() < usize::MAX,
        ensures
            final(self).wf(),
            final(self)@ == old(self)@.push(item),
    {
        let index = self.last_free_slot;
        self.last_free_slot = index + 1;
        self.insert_at_index(item, index);
    }

    /// Puts the item at place `index` of the chain that starts here: into
    /// this chunk where the place is in it, else `CHUNK_SIZE` places
    /// earlier into the chain that starts at the next chunk.
    fn insert_at_index(&mut self, item: T, index: usize)
        requires
            old(self).chained(),
            index == old(self).items().len(),
        ensures
            final(self).chained(),
            final(self).items() == old(self).items().push(item),
            final(self).last_free_slot == old(self).last_free_slot,
        decreases index,
    {
        if index < CHUNK_SIZE {
            self.buf.push(item);
            proof {
                match old(self).next {
                    Some(chunk) => {
                        assert(chunk.items().len() == 0);
                        assert(self.items() =~= old(self).items().push(item));
                    },
                    None => {},
                }
            }
        } else {
            let index = index - CHUNK_SIZE;
            match &mut self.next {
                Some(chunk) => {
                    chunk.insert_at_index(item, index);
                },
                None => {
                    let mut chunk = Box::new(Self::new());
                    chunk.insert_at_index(item, index);
                    self.next = Some(chunk);
                },
            }
            proof {
                assert(self.items() =~= old(self).items().push(item));
            }
        }
    }

    /// Moves the items of the chain that starts here to the end of `out`,
    /// the youngest first, and keeps the emptied chunks.
    fn drain_into(&mut self, out: &mut Vec<T>)
        requires
            old(self).chained(),
        ensures
            final(self).chained(),
            final(self).items() == Seq::<T>::empty(),
            final(self).last_free_slot == old(self).last_free_slot,
            final(out)@ == old(out)@ + old(self).items().reverse(),
        decreases *old(self),
    {
        match &mut self.next {
            Some(chunk) => {
                chunk.drain_into(out);
            },
            None => {},
        }
        let ghost tail = match old(self).next {
            Some(chunk) => chunk.items(),
            None => Seq::<T>::empty(),
        };
        let ghost head = old(self).buf@;
        assert(old(self).items() =~= head + tail);
        pour(&mut self.buf, out);
        proof {
            assert((head + tail).reverse() =~= tail.reverse() + head.reverse());
            assert(self.items() =~= Seq::<T>::empty());
        }
    }

    /// Takes all items out of the buffer. The buffer is empty afterwards
    /// and keeps its chunks.
    pub fn drain(&mut self) -> (drain: Drain<T>)
        requires
            old(self).wf(),
        ensures
            final(self).wf(),
            final(self)@ == Seq::<T>::empty(),
            drain@ == old(self)@,
    {
        let mut rest: Vec<T> = Vec::new();
        self.drain_into(&mut rest);
        self.last_free_slot = 0;
        proof {
            assert(rest@ =~= old(self).items().reverse());
            assert(old(self).items().reverse().reverse() =~= old(self).items());
        }
        Drain { rest }
    }

    /// The number of items in the buffer.
    pub fn len(&self) -> (len: usize)
        requires
            self.wf(),
        ensures
            len == self@.len(),
    {
        self.last_free_slot
    }
}

impl<T> Drain<T> {
    /// Hands on the oldest item that is left, if there is one.
    pub fn next(&mut self) -> (item: Option<T>)
        ensures
            old(self)@.len() == 0 ==> item.is_none() && final(self)@ == old(self)@,
            old(self)@.len() > 0 ==> item == Some(old(self)@[0]) && final(self)@ == old(self)@.subrange(1, old(self)@.len() as int),
    {
        let item = self.rest.pop();
        proof {
            if old(self).rest@.len() > 0 {
                assert(self.rest@.reverse() =~= old(self).rest@.reverse().subrange(
                    1,
                    old(self).rest@.len() as int,
                ));
            }
        }
        item
    }

    /// The number of items that are left. They are dropped.
    pub fn count(self) -> (count: usize)
        ensures
            count == self@.len(),
    {
        self.rest.len()
    }
}

} // verus!
