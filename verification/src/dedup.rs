//! Collapsing runs under the element type's own equality.

use vstd::prelude::*;
use vstd::std_specs::cmp::PartialEqSpec;
use crate::runs::{collapse_from, lemma_collapse_idempotent, pulls_for_next};
use crate::source::{is_pull, Source};

verus! {

/// A producer that drops every element equal to the one emitted before it.
pub struct Dedup<I, T> {
    iter: I,
    current_item: Option<T>,
}

/// The duplicate test of the equality variant: the retained element equals
/// the candidate under the element type's `==`.
pub open spec fn eq_dup<T: PartialEq>() -> spec_fn(T, T) -> bool {
    |held: T, x: T| held.eq_spec(&x)
}

/// The retained state of the variants that keep the emitted element itself.
pub open spec fn keep_item<T>() -> spec_fn(T) -> T {
    |x: T| x
}

/// A clone of an element is that element again.
pub open spec fn faithful_clone<T: Clone>() -> bool {
    forall|a: T, b: T| #[trigger] cloned(a, b) ==> a == b
}

impl<I, T> Dedup<I, T> {
    /// The wrapped producer.
    pub closed spec fn source(&self) -> I {
        self.iter
    }

    /// The last emitted element, or `None` before the first.
    pub closed spec fn held(&self) -> Option<T> {
        self.current_item
    }
}

impl<I, T> Dedup<I, T> where
    I: Source<Item = T>,
    T: PartialEq + Clone,
 {
    /// The wrapped producer can be pulled from, `==` on elements is the
    /// equality that `eq_dup` speaks of, and a clone of an element is that
    /// element.
    pub open spec fn wf(&self) -> bool {
        &&& self.source().wf()
        &&& T::obeys_eq_spec()
        &&& faithful_clone::<T>()
    }

    /// The elements that the adapter has yet to emit: what is left of the
    /// source, collapsed against the retained state.
    pub open spec fn remaining(&self) -> Seq<T> {
        collapse_from(self.source().remaining(), self.held(), eq_dup::<T>(), keep_item::<T>())
    }

    /// Pulls from the source until a candidate is no duplicate of the
    /// retained state, retains and returns it; `None` once the source is
    /// exhausted.
    pub fn next(&mut self) -> (ret: Option<T>)
        requires
            old(self).wf(),
        ensures
            final(self).wf(),
            is_pull(old(self).remaining(), ret, final(self).remaining()),
            ret is Some ==> final(self).held() == ret,
            ret is None ==> final(self).held() == old(self).held()
                && final(self).source().remaining().len() == 0,
            final(self).source().remaining() == old(self).source().remaining().skip(
                pulls_for_next(old(self).source().remaining(), old(self).held(), eq_dup::<T>()),
            ),
    {
        let ghost mut pulled: int = 0;
        loop
            invariant
                self.wf(),
                self.remaining() == old(self).remaining(),
                self.held() == old(self).held(),
                0 <= pulled <= old(self).source().remaining().len(),
                self.source().remaining() == old(self).source().remaining().skip(pulled),
                pulled + pulls_for_next(self.source().remaining(), self.held(), eq_dup::<T>())
                    == pulls_for_next(
                    old(self).source().remaining(),
                    old(self).held(),
                    eq_dup::<T>(),
                ),
            decreases self.source().remaining().len(),
        {
            match self.iter.next() {
                None => {
                    return None;
                },
                Some(x) => {
                    proof {
                        assert(self.source().remaining() =~= old(self).source().remaining().skip(
                            pulled + 1,
                        ));
                        pulled = pulled + 1;
                    }
                    let fresh = match &self.current_item {
                        None => true,
                        Some(cur) => *cur != x,
                    };
                    if fresh {
                        let copy = x.clone();
                        assert(cloned(x, copy));
                        self.current_item = Some(copy);
                        proof {
                            assert(seq![x] + self.remaining() =~= old(self).remaining());
                            assert(self.remaining() =~= old(self).remaining().drop_first());
                        }
                        return Some(x);
                    }
                },
            }
        }
    }
}

impl<I, T> Source for Dedup<I, T> where
    I: Source<Item = T>,
    T: PartialEq + Clone,
 {
    type Item = T;

    open spec fn wf(&self) -> bool {
        Dedup::<I, T>::wf(self)
    }

    open spec fn remaining(&self) -> Seq<T> {
        Dedup::<I, T>::remaining(self)
    }

    fn next(&mut self) -> (ret: Option<T>) {
        Dedup::<I, T>::next(self)
    }
}

/// Gives every producer the `dedup` method.
pub trait DedupAdapter: Source {
    /// Wraps the producer so that runs of equal consecutive elements come out
    /// as their first element only.
    fn dedup(self) -> (r: Dedup<Self, Self::Item>) where Self: Sized
        ensures
            r.source() == self,
            r.held() is None,
    {
        Dedup { iter: self, current_item: None }
    }
}

impl<I> DedupAdapter for I where I: Source {

}

/// Deduplicating what was deduplicated already changes nothing.
pub proof fn lemma_dedup_twice<I, T>(once: Dedup<I, T>, twice: Dedup<Dedup<I, T>, T>) where
    I: Source<Item = T>,
    T: PartialEq + Clone,

    requires
        once.held() is None,
        twice.held() is None,
        twice.source() == once,
    ensures
        twice.remaining() == once.remaining(),
{
    lemma_collapse_idempotent(once.source().remaining(), eq_dup::<T>(), keep_item::<T>());
}

} // verus!
