//! A sliding window over the latest items of a stream, as a moving average
//! needs it.

use std::collections::VecDeque;

use vstd::prelude::*;

verus! {

/// A window of at most `size` items after one more item: the oldest one leaves
/// when there is no room.
pub open spec fn slide<T>(window: Seq<T>, size: nat, item: T) -> Seq<T> {
    if window.len() < size {
        window.push(item)
    } else {
        window.skip(1).push(item)
    }
}

/// An empty window of `size` items after a stream of items.
pub open spec fn slide_all<T>(size: nat, items: Seq<T>) -> Seq<T>
    decreases items.len(),
{
    if items.len() == 0 {
        Seq::empty()
    } else {
        slide(slide_all(size, items.drop_last()), size, items.last())
    }
}

/// The latest items of a stream, in order, up to a fixed number of them.
pub struct Boxcar<T> {
    buf: VecDeque<T>,
    size: usize,
}

impl<T> View for Boxcar<T> {
    type V = Seq<T>;

    closed spec fn view(&self) -> Seq<T> {
        self.buf@
    }
}

impl<T> Boxcar<T> {
    /// How many items the window holds when it is full.
    pub closed spec fn size(&self) -> nat {
        self.size as nat
    }

    /// There is room for an item, and never more items than room.
    pub open spec fn wf(&self) -> bool {
        1 <= self.size() && self@.len() <= self.size()
    }

    /// An empty window for `size` items, but for one item at least.
    pub fn new(size: usize) -> (boxcar: Boxcar<T>)
        ensures
            boxcar.wf(),
            boxcar@ == Seq::<T>::empty(),
            boxcar.size() == if size == 0 {
                1nat
            } else {
                size as nat
            },
    {
        let size: usize = if size < 1 {
            1
        } else {
            size
        };
        Boxcar { buf: VecDeque::new(), size }
    }

    /// Take in one item. Returns the item that leaves for it, if the window was
    /// full.
    pub fn push(&mut self, item: T) -> (left: Option<T>)
        requires
            old(self).wf(),
        ensures
            final(self).wf(),
            final(self).size() == old(self).size(),
            final(self)@ == slide(old(self)@, old(self).size(), item),
            final(self)@ == if old(self)@.len() < old(self).size() {
                old(self)@.push(item)
            } else {
                old(self)@.drop_first().push(item)
            },
            left == if old(self)@.len() < old(self).size() {
                None
            } else {
                Some(old(self)@[0])
            },
    {
        let full: bool = self.buf.len() >= self.size;
        let left: Option<T> = if full {
            self.buf.pop_front()
        } else {
            None
        };
        self.buf.push_back(item);
        assert(self@ =~= slide(old(self)@, old(self).size(), item));
        left
    }

    /// The number of items in the window.
    pub fn len(&self) -> (len: usize)
        ensures
            len == self@.len(),
    {
        self.buf.len()
    }
}

/// After a stream of items a window holds the latest of them, in order: all of
/// them, or as many as there is room for. After at least one item it is not
/// empty.
pub proof fn law_latest_items<T>(size: nat, items: Seq<T>)
    requires
        1 <= size,
    ensures
        slide_all(size, items) == if items.len() <= size {
            items
        } else {
            items.skip(items.len() - size)
        },
        items.len() > 0 ==> 1 <= slide_all(size, items).len() <= size,
    decreases items.len(),
{
    if items.len() > 0 {
        law_latest_items(size, items.drop_last());
        if items.len() <= size {
            assert(items.drop_last().push(items.last()) =~= items);
        } else if items.len() == size + 1 {
            assert(items.drop_last().skip(1).push(items.last()) =~= items.skip(1));
        } else {
            let kept = items.len() - size;
            assert(items.drop_last().skip(kept - 1).skip(1).push(items.last()) =~= items.skip(
                kept,
            ));
        }
    } else {
        assert(items =~= Seq::empty());
    }
}

} // verus!
