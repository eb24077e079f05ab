//! Bounded sets of active connections with oldest-first eviction.
use vstd::prelude::*;

verus! {

/// The abort handles of a transport's in-flight queries, newest first. Once
/// full, admitting a new one evicts the oldest, whose owner is then asked
/// to unwind.
pub struct ActiveSet<T> {
    handles: Vec<T>,
    max: usize,
}

impl<T> View for ActiveSet<T> {
    type V = Seq<T>;

    closed spec fn view(&self) -> Seq<T> {
        self.handles@
    }
}

impl<T> ActiveSet<T> {
    /// The bound on the number of handles.
    pub closed spec fn capacity(&self) -> nat {
        self.max as nat
    }

    /// The set never holds more handles than its bound, which is positive.
    pub open spec fn wf(&self) -> bool {
        0 < self.capacity() && self@.len() <= self.capacity()
    }

    /// An empty set that holds at most `max` handles.
    pub fn new(max: usize) -> (r: Self)
        requires
            max > 0,
        ensures
            r.wf(),
            r@ == Seq::<T>::empty(),
            r.capacity() == max,
    {
        ActiveSet { handles: Vec::new(), max }
    }

    /// Registers `handle` as the newest entry. When the set is full, the oldest
    /// entry leaves it and is returned, for its owner to be signalled.
    pub fn register(&mut self, handle: T) -> (evicted: Option<T>)
        requires
            old(self).wf(),
        ensures
            final(self).wf(),
            final(self).capacity() == old(self).capacity(),
            old(self)@.len() < old(self).capacity() ==> evicted is None && final(self)@ == seq![handle] + old(self)@,
            old(self)@.len() >= old(self).capacity() ==> evicted == Some(old(self)@.last())
                && final(self)@ == seq![handle] + old(self)@.drop_last(),
    {
        let evicted = if self.handles.len() >= self.max {
            self.handles.pop()
        } else {
            None
        };
        self.handles.insert(0, handle);
        proof {
            assert(self.handles@ =~= seq![handle] + old(self)@.subrange(0, self.handles@.len() - 1));
            if old(self)@.len() >= old(self).capacity() {
                assert(old(self)@.drop_last() =~= old(self)@.subrange(0, self.handles@.len() - 1));
            } else {
                assert(old(self)@ =~= old(self)@.subrange(0, self.handles@.len() - 1));
            }
        }
        evicted
    }

    /// Number of handles held.
    pub fn len(&self) -> (r: usize)
        ensures
            r == self@.len(),
    {
        self.handles.len()
    }

    /// The bound on the number of handles.
    pub fn max(&self) -> (r: usize)
        ensures
            r == self.capacity(),
    {
        self.max
    }
}

} // verus!
