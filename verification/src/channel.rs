//! A bounded first-in first-out hand-off queue.
//!
//! Neither end ever waits. A send to a full queue drops the item that was
//! offered (drop-newest) and says so in its result; what is already queued is
//! never displaced. A receive from an empty queue returns nothing.

use std::collections::VecDeque;
use vstd::prelude::*;

verus! {

/// The capacity of every queue of the streaming pipeline.
pub const CHANNEL_CAPACITY: usize = 16;

/// The contents after `item` was offered to a queue of the given capacity:
/// appended when there was room, dropped when there was none.
pub open spec fn offered<T>(contents: Seq<T>, capacity: nat, item: T) -> Seq<T> {
    if contents.len() < capacity {
        contents.push(item)
    } else {
        contents
    }
}

/// The contents after `items` were offered one by one, with no receive between
/// them.
pub open spec fn offered_all<T>(contents: Seq<T>, capacity: nat, items: Seq<T>) -> Seq<T>
    decreases items.len(),
{
    if items.len() == 0 {
        contents
    } else {
        offered(offered_all(contents, capacity, items.drop_last()), capacity, items.last())
    }
}

/// The number of `items` that a queue admits when they are offered one by one:
/// as many as it has room for.
pub open spec fn admitted_count(len: nat, capacity: nat, items: nat) -> nat {
    if len >= capacity {
        0
    } else if items <= capacity - len {
        items
    } else {
        (capacity - len) as nat
    }
}

/// Backpressure: offering any number of items without a receive keeps what was
/// queued, admits the first offered items in order while there is room, and
/// drops the rest. A queue that was within its capacity stays within it, and
/// one that was offered more than it had room for is exactly full.
pub proof fn lemma_offered_all<T>(contents: Seq<T>, capacity: nat, items: Seq<T>)
    ensures
        offered_all(contents, capacity, items) == contents + items.take(
            admitted_count(contents.len(), capacity, items.len()) as int,
        ),
        contents.len() <= capacity ==> offered_all(contents, capacity, items).len() <= capacity,
        contents.len() <= capacity && contents.len() + items.len() >= capacity ==> offered_all(
            contents,
            capacity,
            items,
        ).len() == capacity,
    decreases items.len(),
{
    let k = admitted_count(contents.len(), capacity, items.len()) as int;
    if items.len() == 0 {
        assert(contents + items.take(0) =~= contents);
    } else {
        let front = items.drop_last();
        lemma_offered_all(contents, capacity, front);
        let kf = admitted_count(contents.len(), capacity, front.len()) as int;
        let before = offered_all(contents, capacity, front);
        assert(before == contents + front.take(kf));
        if before.len() < capacity {
            assert(kf == front.len());
            assert(k == items.len());
            assert(front.take(kf) =~= front);
            assert(items.take(k) =~= items);
            assert((contents + front).push(items.last()) =~= contents + items);
        } else {
            assert(k == kf);
            assert(front.take(kf) =~= items.take(k));
        }
    }
}

/// A bounded queue of owned items.
pub struct BoundedChannel<T> {
    queue: VecDeque<T>,
    capacity: usize,
}

impl<T> View for BoundedChannel<T> {
    type V = Seq<T>;

    /// The queued items, oldest first.
    closed spec fn view(&self) -> Seq<T> {
        self.queue@
    }
}

impl<T> BoundedChannel<T> {
    #[verifier::type_invariant]
    spec fn within_capacity(self) -> bool {
        self.queue@.len() <= self.capacity
    }

    /// The most items the queue holds at once.
    pub closed spec fn limit(&self) -> nat {
        self.capacity as nat
    }

    /// An empty queue that holds at most `capacity` items.
    pub fn new(capacity: usize) -> (channel: Self)
        ensures
            channel@ == Seq::<T>::empty(),
            channel.limit() == capacity,
    {
        BoundedChannel { queue: VecDeque::new(), capacity }
    }

    /// The most items the queue holds at once.
    pub fn capacity(&self) -> (capacity: usize)
        ensures
            capacity == self.limit(),
    {
        self.capacity
    }

    /// The number of queued items.
    pub fn len(&self) -> (len: usize)
        ensures
            len == self@.len(),
            len <= self.limit(),
    {
        proof {
            use_type_invariant(self);
        }
        self.queue.len()
    }

    /// Whether nothing is queued.
    pub fn is_empty(&self) -> (empty: bool)
        ensures
            empty == (self@.len() == 0),
    {
        self.queue.len() == 0
    }

    /// Whether a send would be dropped.
    pub fn is_full(&self) -> (full: bool)
        ensures
            full == (self@.len() >= self.limit()),
    {
        self.queue.len() >= self.capacity
    }

    /// Offers `item` without waiting. Returns whether it was queued; a full
    /// queue drops it and stays as it was.
    pub fn try_send(&mut self, item: T) -> (admitted: bool)
        ensures
            admitted == (old(self)@.len() < old(self).limit()),
            final(self)@ == offered(old(self)@, old(self).limit(), item),
            final(self).limit() == old(self).limit(),
    {
        if self.queue.len() < self.capacity {
            let mut queue: VecDeque<T> = VecDeque::new();
            core::mem::swap(&mut self.queue, &mut queue);
            queue.push_back(item);
            core::mem::swap(&mut self.queue, &mut queue);
            true
        } else {
            false
        }
    }

    /// Takes the oldest item without waiting, if there is one.
    pub fn try_recv(&mut self) -> (item: Option<T>)
        ensures
            final(self).limit() == old(self).limit(),
            match item {
                Some(x) => old(self)@.len() > 0 && x == old(self)@[0] && final(self)@ == old(
                    self,
                )@.skip(1),
                None => old(self)@.len() == 0 && final(self)@ == old(self)@,
            },
    {
        proof {
            use_type_invariant(&*self);
        }
        let mut queue: VecDeque<T> = VecDeque::new();
        core::mem::swap(&mut self.queue, &mut queue);
        let item = queue.pop_front();
        proof {
            let before = old(self).queue@;
            assert(before.subrange(1, before.len() as int) == before.skip(1));
        }
        core::mem::swap(&mut self.queue, &mut queue);
        item
    }
}

} // verus!
