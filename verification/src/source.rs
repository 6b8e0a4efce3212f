//! Pull-based producers of elements, with one producer that borrows a slice
//! and one that owns a vector.

use vstd::prelude::*;

verus! {

/// One pull: `ret` is the head of `before` and `after` is its tail, or
/// `before` is empty, `ret` is `None` and `after` is empty too.
pub open spec fn is_pull<T>(before: Seq<T>, ret: Option<T>, after: Seq<T>) -> bool {
    if before.len() == 0 {
        ret is None && after == before
    } else {
        ret == Some(before[0]) && after == before.drop_first()
    }
}

/// A producer of elements that is consumed strictly in order, one pull at a
/// time, and never rewound.
///
/// `remaining` is everything the producer has yet to hand out. A pull takes
/// the head of it, or reports exhaustion when nothing is left.
pub trait Source {
    type Item;

    /// What the producer needs to hold of itself to be pulled from.
    spec fn wf(&self) -> bool;

    /// The elements not handed out yet, in the order in which they will come.
    spec fn remaining(&self) -> Seq<Self::Item>;

    /// Produces the next element, or `None` once the producer is exhausted.
    fn next(&mut self) -> (ret: Option<Self::Item>)
        requires
            old(self).wf(),
        ensures
            final(self).wf(),
            is_pull(old(self).remaining(), ret, final(self).remaining()),
    ;
}

/// A producer that hands out references to the elements of a slice, front to
/// back.
pub struct SliceSource<'a, T> {
    items: &'a [T],
    pos: usize,
}

impl<'a, T> SliceSource<'a, T> {
    /// The slice that the producer walks.
    pub closed spec fn items(&self) -> Seq<T> {
        self.items@
    }

    /// How many elements were handed out so far.
    pub closed spec fn pos(&self) -> int {
        self.pos as int
    }

    /// A producer that stands before the first element of `items`.
    pub fn new(items: &'a [T]) -> (r: Self)
        ensures
            r.wf(),
            r.items() == items@,
            r.pos() == 0,
            r.remaining() == items@.map_values(|x: T| &x),
    {
        let r = SliceSource { items, pos: 0 };
        assert(r.remaining() =~= items@.map_values(|x: T| &x));
        r
    }
}

impl<'a, T> Source for SliceSource<'a, T> {
    type Item = &'a T;

    open spec fn wf(&self) -> bool {
        0 <= self.pos() <= self.items().len()
    }

    open spec fn remaining(&self) -> Seq<&'a T> {
        self.items().subrange(self.pos(), self.items().len() as int).map_values(|x: T| &x)
    }

    fn next(&mut self) -> (ret: Option<&'a T>)
        ensures
            final(self).items() == old(self).items(),
            final(self).pos() == old(self).pos() + if ret is Some {
                1int
            } else {
                0int
            },
    {
        if self.pos < self.items.len() {
            let x = &self.items[self.pos];
            self.pos = self.pos + 1;
            assert(self.remaining() =~= old(self).remaining().drop_first());
            Some(x)
        } else {
            None
        }
    }
}

/// A producer that owns its elements and hands them out front to back.
pub struct VecSource<T> {
    // The elements still to come, last one first, so that a pull is a pop.
    stack: Vec<T>,
}

impl<T> VecSource<T> {
    /// A producer of the elements of `items`, in their order.
    pub fn new(items: Vec<T>) -> (r: Self)
        ensures
            r.wf(),
            r.remaining() == items@,
    {
        let mut items = items;
        let mut stack: Vec<T> = Vec::new();
        let ghost all = items@;
        while items.len() > 0
            invariant
                items@.len() + stack@.len() == all.len(),
                forall|i: int| 0 <= i < items@.len() ==> items@[i] == all[i],
                forall|i: int| 0 <= i < stack@.len() ==> stack@[i] == all[all.len() - 1 - i],
            decreases items.len(),
        {
            match items.pop() {
                Some(x) => {
                    stack.push(x);
                },
                None => {},
            }
        }
        let r = VecSource { stack };
        assert(r.remaining() =~= all);
        r
    }
}

impl<T> Source for VecSource<T> {
    type Item = T;

    open spec fn wf(&self) -> bool {
        true
    }

    closed spec fn remaining(&self) -> Seq<T> {
        Seq::new(self.stack@.len(), |i: int| self.stack@[self.stack@.len() - 1 - i])
    }

    fn next(&mut self) -> (ret: Option<T>) {
        let ret = self.stack.pop();
        assert(ret is Some ==> self.remaining() =~= old(self).remaining().drop_first());
        ret
    }
}

} // verus!
