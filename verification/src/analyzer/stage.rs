//! The producer interface shared by all stages, and two small producers:
//! one that hands out the items of a vector, and one that adds a slot of
//! lookahead to any other producer.
use vstd::prelude::*;

verus! {

/// The views of the items of a sequence, in order.
pub open spec fn views<T: View>(items: Seq<T>) -> Seq<T::V> {
    items.map_values(|item: T| item@)
}

/// A pull-based producer.  Its whole future is the finite sequence
/// `pending()`: each call of `next` hands out the first pending item, and
/// once nothing is pending it answers `None` for good.
pub trait Stage {
    type Item: View;

    /// The invariant that `next` needs and keeps.
    spec fn well_formed(&self) -> bool;

    /// The views of the items that are still to come, in order.
    spec fn pending(&self) -> Seq<<Self::Item as View>::V>;

    fn next(&mut self) -> (item: Option<Self::Item>)
        requires
            old(self).well_formed(),
        ensures
            final(self).well_formed(),
            old(self).pending().len() == 0 ==> item is None && final(self).pending()
                == old(self).pending(),
            old(self).pending().len() > 0 ==> item is Some && item->0@ == old(self).pending()[0]
                && final(self).pending() == old(self).pending().skip(1),
    ;
}

/// Hands out the items of a vector, first to last.
pub struct Buffer<T> {
    /// The items that are left, last one first.
    stack: Vec<T>,
}

impl<T: View> Buffer<T> {
    pub fn new(items: Vec<T>) -> (buffer: Self)
        ensures
            buffer.well_formed(),
            buffer.pending() == views(items@),
            buffer.pending().len() <= usize::MAX,
    {
        let mut items = items;
        let ghost given = items@;
        let mut stack: Vec<T> = Vec::with_capacity(items.len());
        while items.len() > 0
            invariant
                items@.len() <= given.len(),
                items@ == given.take(items@.len() as int),
                stack@.reverse() == given.skip(items@.len() as int),
            decreases items.len(),
        {
            let ghost before = stack@;
            let item = items.pop().unwrap();
            stack.push(item);
            assert(stack@.reverse() =~= seq![item] + before.reverse());
            assert(stack@.reverse() =~= given.skip(items@.len() as int));
            assert(items@ =~= given.take(items@.len() as int));
        }
        assert(given.skip(0) =~= given);
        Buffer { stack }
    }
}

impl<T: View> Stage for Buffer<T> {
    type Item = T;

    open spec fn well_formed(&self) -> bool {
        true
    }

    closed spec fn pending(&self) -> Seq<T::V> {
        views(self.stack@.reverse())
    }

    fn next(&mut self) -> (item: Option<T>) {
        let item = self.stack.pop();
        proof {
            if item is Some {
                assert(self.stack@.reverse() =~= old(self).stack@.reverse().skip(1));
                assert(self.pending() =~= old(self).pending().skip(1));
            }
        }
        item
    }
}

/// Takes everything that `stage` has to hand out.
pub fn collect<S: Stage>(stage: S) -> (items: Vec<S::Item>)
    requires
        stage.well_formed(),
    ensures
        views(items@) == stage.pending(),
{
    let mut stage = stage;
    let ghost all = stage.pending();
    let mut items: Vec<S::Item> = Vec::new();
    assert(views(items@) + stage.pending() =~= all);
    loop
        invariant_except_break
            stage.well_formed(),
            views(items@) + stage.pending() == all,
        ensures
            views(items@) == all,
        decreases stage.pending().len(),
    {
        let ghost taken = views(items@);
        let ghost pending = stage.pending();
        match stage.next() {
            None => {
                assert(taken + pending =~= taken);
                break ;
            },
            Some(item) => {
                items.push(item);
                assert(views(items@) =~= taken.push(pending[0]));
                assert(taken.push(pending[0]) + pending.skip(1) =~= taken + pending);
            },
        }
    }
    items
}

/// One slot of lookahead in front of another producer.
pub struct Peekable<S: Stage> {
    upstream: S,
    /// An item that was taken from `upstream` and not handed out yet.
    slot: Option<S::Item>,
}

impl<S: Stage> Peekable<S> {
    pub fn new(upstream: S) -> (peekable: Self)
        requires
            upstream.well_formed(),
        ensures
            peekable.well_formed(),
            peekable.pending() == upstream.pending(),
    {
        Peekable { upstream, slot: None }
    }

    /// Looks at the next item without taking it.
    pub fn peek(&mut self) -> (item: Option<&S::Item>)
        requires
            old(self).well_formed(),
        ensures
            final(self).well_formed(),
            final(self).pending() == old(self).pending(),
            old(self).pending().len() == 0 ==> item is None,
            old(self).pending().len() > 0 ==> item is Some && item->0@ == old(self).pending()[0],
    {
        if self.slot.is_none() {
            let ghost before = self.upstream.pending();
            self.slot = self.upstream.next();
            proof {
                if before.len() > 0 {
                    assert(seq![before[0]] + before.skip(1) =~= before);
                }
            }
        }
        self.slot.as_ref()
    }
}

impl<S: Stage> Stage for Peekable<S> {
    type Item = S::Item;

    closed spec fn well_formed(&self) -> bool {
        self.upstream.well_formed()
    }

    closed spec fn pending(&self) -> Seq<<S::Item as View>::V> {
        match self.slot {
            Some(item) => seq![item@] + self.upstream.pending(),
            None => self.upstream.pending(),
        }
    }

    fn next(&mut self) -> (item: Option<S::Item>) {
        let held = self.slot.take();
        match held {
            Some(item) => {
                assert(self.pending() =~= old(self).pending().skip(1));
                Some(item)
            },
            None => self.upstream.next(),
        }
    }
}

} // verus!
