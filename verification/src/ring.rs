//! Fixed-capacity ring buffer.
//!
//! The backing storage is reserved once at construction and never outgrows it, so
//! recording a sample costs no allocation.

use crate::error::Error;
use vstd::prelude::*;

verus! {

/// `Vec::capacity`: how much the backing vector has room for.
///
/// What an allocator grants is its own business, so the contract claims only what the
/// standard library guarantees of every vector: the room covers the items it holds.
#[verifier::external_body]
pub(crate) fn reserved_slots<T>(items: &Vec<T>) -> (n: usize)
    ensures
        n >= items@.len(),
{
    items.capacity()
}

/// What a buffer of `capacity` that holds `held` holds once `item` is pushed: the oldest
/// item gives way when it is full.
pub open spec fn pushed<T>(held: Seq<T>, capacity: nat, item: T) -> Seq<T> {
    if held.len() < capacity {
        held.push(item)
    } else {
        held.drop_first().push(item)
    }
}

/// What a buffer of `capacity` that holds `held` holds once `items` are pushed in order.
pub open spec fn pushed_all<T>(held: Seq<T>, capacity: nat, items: Seq<T>) -> Seq<T>
    decreases items.len(),
{
    if items.len() == 0 {
        held
    } else {
        pushed(pushed_all(held, capacity, items.drop_last()), capacity, items.last())
    }
}

/// Where the latest `capacity` of `n` items begin.
pub open spec fn latest_start(n: int, capacity: nat) -> int {
    if n > capacity {
        n - capacity
    } else {
        0
    }
}

/// However much is pushed, a buffer holds the latest `capacity` of everything it was ever
/// given, oldest first: what it held, then what was pushed.
pub proof fn lemma_keeps_latest<T>(held: Seq<T>, capacity: nat, items: Seq<T>)
    requires
        capacity > 0,
        held.len() <= capacity,
    ensures
        pushed_all(held, capacity, items) == (held + items).subrange(
            latest_start(held.len() + items.len() as int, capacity),
            held.len() + items.len() as int,
        ),
    decreases items.len(),
{
    let all = held + items;
    let n = all.len() as int;
    if items.len() == 0 {
        assert(all =~= held);
        assert(all.subrange(0, n) =~= held);
    } else {
        lemma_keeps_latest(held, capacity, items.drop_last());
        let before = pushed_all(held, capacity, items.drop_last());
        assert(held + items.drop_last() =~= all.drop_last());
        assert(all[n - 1] == items.last());
        if n - 1 < capacity {
            assert(before =~= all.subrange(0, n - 1));
            assert(before.push(items.last()) =~= all.subrange(0, n));
        } else {
            assert(before =~= all.subrange(n - 1 - capacity, n - 1));
            assert(before.drop_first().push(items.last()) =~= all.subrange(n - capacity, n));
        }
    }
}

/// A buffer left empty, as a new one starts and as a clear leaves it, holds after any
/// pushes exactly the latest `capacity` of them, oldest first, whatever it held before.
pub proof fn lemma_fills_from_empty<T>(capacity: nat, items: Seq<T>)
    requires
        capacity > 0,
    ensures
        pushed_all(Seq::<T>::empty(), capacity, items) == items.subrange(
            latest_start(items.len() as int, capacity),
            items.len() as int,
        ),
        items.len() > 0 ==> pushed_all(Seq::<T>::empty(), capacity, items).last() == items.last(),
{
    lemma_keeps_latest(Seq::<T>::empty(), capacity, items);
    assert(Seq::<T>::empty() + items =~= items);
}

/// A buffer that holds at most `capacity` items, overwriting the oldest when full.
///
/// Its view is the held items from the oldest to the newest.
#[derive(Debug, Clone)]
pub struct RingBuffer<T> {
    items: Vec<T>,
    capacity: usize,
    /// Index that will be overwritten next. Meaningful only once the buffer is full.
    next: usize,
}

impl<T> RingBuffer<T> {
    /// The storage bookkeeping is consistent.
    pub closed spec fn wf(self) -> bool {
        &&& self.capacity > 0
        &&& self.items.len() <= self.capacity
        &&& self.next < self.capacity
        &&& self.items.len() < self.capacity ==> self.next == 0
    }

    /// The index the oldest item is stored at.
    spec fn split(self) -> int {
        if self.items.len() == self.capacity {
            self.next as int
        } else {
            self.items.len() as int
        }
    }

    /// The held items, oldest first.
    pub closed spec fn view(self) -> Seq<T> {
        self.items@.subrange(self.split(), self.items.len() as int) + self.items@.subrange(
            0,
            self.split(),
        )
    }

    /// The most items the buffer will hold.
    pub closed spec fn spec_capacity(self) -> nat {
        self.capacity as nat
    }

    /// Creates an empty buffer with room for `capacity` items.
    ///
    /// Refuses a capacity of zero, which would silently discard every item.
    pub fn new(capacity: usize) -> (r: Result<Self, Error>)
        ensures
            capacity == 0 ==> r == Err::<Self, Error>(Error::ZeroCapacity),
            capacity > 0 ==> (r matches Ok(b) && b.wf() && b@ == Seq::<T>::empty()
                && b.spec_capacity() == capacity),
    {
        if capacity == 0 {
            return Err(Error::ZeroCapacity);
        }
        let b = RingBuffer { items: Vec::with_capacity(capacity), capacity, next: 0 };
        assert(b@ =~= Seq::<T>::empty());
        Ok(b)
    }

    /// Appends an item, returning the one it evicted if the buffer was already full.
    pub fn push(&mut self, item: T) -> (evicted: Option<T>)
        requires
            old(self).wf(),
        ensures
            final(self).wf(),
            final(self).spec_capacity() == old(self).spec_capacity(),
            old(self)@.len() < old(self).spec_capacity() ==> {
                &&& final(self)@ == old(self)@.push(item)
                &&& evicted is None
            },
            old(self)@.len() == old(self).spec_capacity() ==> {
                &&& final(self)@ == old(self)@.drop_first().push(item)
                &&& evicted == Some(old(self)@[0])
            },
            final(self)@ == pushed(old(self)@, old(self).spec_capacity(), item),
    {
        let ghost before = self@;
        if self.items.len() < self.capacity {
            self.items.push(item);
            assert(self@ =~= before.push(item));
            return None;
        }
        let ghost items = self.items@;
        let ghost n = self.next as int;
        let at = self.next;
        let mut evicted = item;
        std::mem::swap(&mut self.items[at], &mut evicted);
        self.next = if self.next + 1 == self.capacity {
            0
        } else {
            self.next + 1
        };
        proof {
            let cap = self.capacity as int;
            let new_items = items.update(n, item);
            assert(self.items@ =~= new_items);
            assert(before =~= items.subrange(n, cap) + items.subrange(0, n));
            assert(before[0] == items[n]);
            if n + 1 == cap {
                assert(self@ =~= new_items.subrange(0, cap));
                assert(self@ =~= before.drop_first().push(item));
            } else {
                assert(self@ =~= new_items.subrange(n + 1, cap) + new_items.subrange(0, n + 1));
                assert(self@ =~= before.drop_first().push(item));
            }
        }
        Some(evicted)
    }

    /// A well-formed buffer never holds more than its capacity, and that capacity is positive.
    pub proof fn lemma_within_capacity(self)
        requires
            self.wf(),
        ensures
            self@.len() <= self.spec_capacity(),
            self.spec_capacity() > 0,
    {
    }

    /// Number of items currently held.
    pub fn len(&self) -> (n: usize)
        requires
            self.wf(),
        ensures
            n == self@.len(),
    {
        self.items.len()
    }

    /// Whether the buffer holds nothing.
    pub fn is_empty(&self) -> (b: bool)
        requires
            self.wf(),
        ensures
            b == (self@.len() == 0),
    {
        self.items.len() == 0
    }

    /// Whether the next push will evict the oldest item.
    pub fn is_full(&self) -> (b: bool)
        requires
            self.wf(),
        ensures
            b == (self@.len() == self.spec_capacity()),
    {
        self.items.len() == self.capacity
    }

    /// Maximum number of items the buffer will hold.
    pub fn capacity(&self) -> (n: usize)
        requires
            self.wf(),
        ensures
            n == self.spec_capacity(),
            n > 0,
            self@.len() <= n,
    {
        self.capacity
    }

    /// How many items the backing storage has room for without growing.
    pub fn reserved(&self) -> (n: usize)
        requires
            self.wf(),
        ensures
            n >= self@.len(),
    {
        reserved_slots(&self.items)
    }

    /// The held items, from the oldest to the newest.
    pub fn iter(&self) -> (v: Vec<&T>)
        requires
            self.wf(),
        ensures
            v@.len() == self@.len(),
            forall|i: int| 0 <= i < v@.len() ==> *v@[i] == self@[i],
    {
        let len = self.items.len();
        let split = if len == self.capacity {
            self.next
        } else {
            len
        };
        let ghost view = self@;
        let mut v: Vec<&T> = Vec::with_capacity(len);
        let mut j = split;
        while j < len
            invariant
                split <= j <= len,
                len == self.items.len(),
                split == self.split(),
                view == self@,
                v@.len() == j - split,
                forall|i: int| 0 <= i < v@.len() ==> *v@[i] == view[i],
            decreases len - j,
        {
            v.push(&self.items[j]);
            j = j + 1;
        }
        let mut k: usize = 0;
        while k < split
            invariant
                0 <= k <= split <= len,
                len == self.items.len(),
                split == self.split(),
                view == self@,
                v@.len() == len - split + k,
                forall|i: int| 0 <= i < v@.len() ==> *v@[i] == view[i],
            decreases split - k,
        {
            v.push(&self.items[k]);
            k = k + 1;
        }
        v
    }

    /// The newest item, if any.
    pub fn newest(&self) -> (r: Option<&T>)
        requires
            self.wf(),
        ensures
            self@.len() == 0 ==> r is None,
            self@.len() > 0 ==> (r matches Some(x) && *x == self@.last()),
    {
        let len = self.items.len();
        if len == 0 {
            return None;
        }
        let at = if len == self.capacity {
            if self.next == 0 {
                len - 1
            } else {
                self.next - 1
            }
        } else {
            len - 1
        };
        Some(&self.items[at])
    }

    /// Drops every item, keeping the allocation for reuse.
    pub fn clear(&mut self)
        requires
            old(self).wf(),
        ensures
            final(self).wf(),
            final(self)@ == Seq::<T>::empty(),
            final(self).spec_capacity() == old(self).spec_capacity(),
    {
        self.items.clear();
        self.next = 0;
        assert(self@ =~= Seq::<T>::empty());
    }
}

} // verus!
