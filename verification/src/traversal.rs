use vstd::prelude::*;

verus! {

/// A queue of pending work items.
///
/// `shift` adds an item at the end of the pending sequence; `unshift`
/// removes and returns one pending item, and which one comes out is the
/// implementing discipline's choice. That choice fixes the order in which a
/// consumer, such as the fixed-layout tree builder, visits its work.
pub trait Queue<T>: Sized {
    /// The pending items, in the order they were added.
    spec fn items(&self) -> Seq<T>;

    /// The number of pending items.
    fn len(&self) -> (r: usize)
        ensures
            r == self.items().len(),
    ;

    /// Whether no item is pending.
    fn is_empty(&self) -> (r: bool)
        ensures
            r == (self.items().len() == 0),
    ;

    /// A borrow of one pending item, if any is pending.
    fn first(&self) -> (r: Option<&T>)
        ensures
            (r is Some) == (self.items().len() > 0),
            r matches Some(x) ==> exists|i: int|
                0 <= i < self.items().len() && *x == #[trigger] self.items()[i],
    ;

    /// Adds an item at the end of the pending sequence.
    fn shift(&mut self, t: T)
        ensures
            final(self).items() == old(self).items().push(t),
    ;

    /// Removes and returns one pending item, by this discipline's choice;
    /// reports `None` when nothing is pending.
    fn unshift(&mut self) -> (r: Option<T>)
        ensures
            (r is Some) == (old(self).items().len() > 0),
            old(self).items().len() == 0 ==> final(self).items() == old(self).items(),
            old(self).items().len() > 0 ==> exists|i: int|
                0 <= i < old(self).items().len() && r == Some(#[trigger] old(self).items()[i])
                    && final(self).items() == old(self).items().remove(i),
    ;
}

/// A last-in, first-out queue: consuming work from it visits a tree depth
/// first.
pub struct DepthQueue<T> {
    v: Vec<T>,
}

impl<T> DepthQueue<T> {
    /// An empty queue.
    pub fn new() -> (q: Self)
        ensures
            q.items() == Seq::<T>::empty(),
    {
        let q = DepthQueue { v: Vec::new() };
        proof {
            assert(q.v@ =~= Seq::<T>::empty());
        }
        q
    }
}

impl<T> Queue<T> for DepthQueue<T> {
    closed spec fn items(&self) -> Seq<T> {
        self.v@
    }

    fn len(&self) -> (r: usize) {
        self.v.len()
    }

    fn is_empty(&self) -> (r: bool) {
        self.v.len() == 0
    }

    fn first(&self) -> (r: Option<&T>)
        ensures
            self.items().len() > 0 ==> (r matches Some(x) && *x == self.items()[0]),
    {
        if self.v.len() == 0 {
            None
        } else {
            Some(&self.v[0])
        }
    }

    fn shift(&mut self, t: T) {
        self.v.push(t);
    }

    /// Hands back the most recently added item first.
    fn unshift(&mut self) -> (r: Option<T>)
        ensures
            old(self).items().len() > 0 ==> r == Some(old(self).items().last())
                && final(self).items() == old(self).items().drop_last(),
    {
        let ghost pre = self.v@;
        let r = self.v.pop();
        proof {
            if pre.len() > 0 {
                let i = pre.len() - 1;
                assert(r == Some(pre[i]));
                assert(self.v@ =~= pre.remove(i));
            }
        }
        r
    }
}

} // verus!
