//! Collapsing runs under a caller-supplied pairwise test.

use vstd::prelude::*;
use crate::dedup::{faithful_clone, keep_item};
use crate::runs::{collapse_from, lemma_collapse_idempotent, pulls_for_next};
use crate::source::{is_pull, Source};

verus! {

/// A producer that drops every element which the supplied function judges to
/// be the same as the one emitted before it.
pub struct DedupBy<I, F, T> {
    iter: I,
    current_item: Option<T>,
    same_bucket: F,
}

/// The duplicate test of the predicate variant: `same(held, x)` answers
/// `true`. The retained element is always the first argument.
pub open spec fn by_dup<T, F: Fn(&T, &T) -> bool>(same: F) -> spec_fn(T, T) -> bool {
    |held: T, x: T| call_ensures(same, (&held, &x), true)
}

/// `same` accepts every pair of elements and answers each pair in one way
/// only.
pub open spec fn is_pure_test<T, F: Fn(&T, &T) -> bool>(same: F) -> bool {
    &&& forall|a: T, b: T| #[trigger] call_requires(same, (&a, &b))
    &&& forall|a: T, b: T|
        #![trigger call_ensures(same, (&a, &b), true)]
        #![trigger call_ensures(same, (&a, &b), false)]
        !(call_ensures(same, (&a, &b), true) && call_ensures(same, (&a, &b), false))
}

/// Whatever `same` answers on a pair is what `meaning` says of that pair.
pub open spec fn answers_as<T, F: Fn(&T, &T) -> bool>(
    same: F,
    meaning: spec_fn(T, T) -> bool,
) -> bool {
    forall|a: T, b: T, r: bool| #[trigger] call_ensures(same, (&a, &b), r) ==> r == meaning(a, b)
}

impl<I, F, T> DedupBy<I, F, T> {
    /// The wrapped producer.
    pub closed spec fn source(&self) -> I {
        self.iter
    }

    /// The last emitted element, or `None` before the first.
    pub closed spec fn held(&self) -> Option<T> {
        self.current_item
    }

    /// The pairwise test that the adapter was made with.
    pub closed spec fn same(&self) -> F {
        self.same_bucket
    }
}

impl<I, F, T> DedupBy<I, F, T> where
    I: Source<Item = T>,
    T: Clone,
    F: Fn(&T, &T) -> bool,
 {
    /// The wrapped producer can be pulled from, the test behaves as a
    /// function of the pair it is given, and a clone of an element is that
    /// element.
    pub open spec fn wf(&self) -> bool {
        &&& self.source().wf()
        &&& is_pure_test::<T, F>(self.same())
        &&& faithful_clone::<T>()
    }

    /// The elements that the adapter has yet to emit: what is left of the
    /// source, collapsed against the retained element.
    ///
    /// A caller who knows what the test computes reads the adapter through
    /// `remaining_as` with that meaning; `next` is stated both ways.
    pub open spec fn remaining(&self) -> Seq<T> {
        self.remaining_as(by_dup::<T, F>(self.same()))
    }

    /// How many elements the next request takes from the source, read with
    /// `meaning` as the duplicate test.
    pub open spec fn pulls(&self, meaning: spec_fn(T, T) -> bool) -> int {
        pulls_for_next(self.source().remaining(), self.held(), meaning)
    }

    /// The elements that the adapter has yet to emit, read with `meaning` as
    /// the duplicate test.
    pub open spec fn remaining_as(&self, meaning: spec_fn(T, T) -> bool) -> Seq<T> {
        collapse_from(self.source().remaining(), self.held(), meaning, keep_item::<T>())
    }

    /// Pulls from the source until a candidate is no duplicate of the
    /// retained state, retains and returns it; `None` once the source is
    /// exhausted.
    pub fn next(&mut self) -> (ret: Option<T>)
        requires
            old(self).wf(),
        ensures
            final(self).wf(),
            is_pull(old(self).remaining(), ret, final(self).remaining()),
            forall|meaning: spec_fn(T, T) -> bool| #[trigger]
                answers_as(old(self).same(), meaning) ==> is_pull(
                    old(self).remaining_as(meaning),
                    ret,
                    final(self).remaining_as(meaning),
                ) && final(self).source().remaining() == old(self).source().remaining().skip(
                    old(self).pulls(meaning),
                ),
            final(self).same() == old(self).same(),
            ret is Some ==> final(self).held() == ret,
            ret is None ==> final(self).held() == old(self).held()
                && final(self).source().remaining().len() == 0,
            final(self).source().remaining() == old(self).source().remaining().skip(
                old(self).pulls(by_dup::<T, F>(old(self).same())),
            ),
    {
        let ghost mut pulled: int = 0;
        assert(answers_as(self.same(), by_dup::<T, F>(self.same())));
        loop
            invariant
                self.wf(),
                forall|meaning: spec_fn(T, T) -> bool| #[trigger]
                    answers_as(self.same(), meaning) ==> self.remaining_as(meaning) == old(
                        self,
                    ).remaining_as(meaning) && pulled + self.pulls(meaning) == old(self).pulls(
                        meaning,
                    ),
                answers_as(self.same(), by_dup::<T, F>(self.same())),
                self.held() == old(self).held(),
                self.same() == old(self).same(),
                0 <= pulled <= old(self).source().remaining().len(),
                self.source().remaining() == old(self).source().remaining().skip(pulled),
            decreases self.source().remaining().len(),
        {
            let ghost before = *self;
            match self.iter.next() {
                None => {
                    return None;
                },
                Some(x) => {
                    proof {
                        assert(self.source().remaining() =~= old(self).source().remaining().skip(
                            pulled + 1,
                        ));
                        pulled = pulled + 1;
                    }
                    let fresh = match &self.current_item {
                        None => true,
                        Some(cur) => !(self.same_bucket)(cur, &x),
                    };
                    if fresh {
                        let copy = x.clone();
                        assert(cloned(x, copy));
                        self.current_item = Some(copy);
                        assert forall|meaning: spec_fn(T, T) -> bool| #[trigger]
                            answers_as(old(self).same(), meaning) implies is_pull(
                            old(self).remaining_as(meaning),
                            Some(x),
                            self.remaining_as(meaning),
                        ) && self.source().remaining() == old(self).source().remaining().skip(
                            old(self).pulls(meaning),
                        ) by {
                            assert(before.pulls(meaning) == 1);
                            assert(seq![x] + self.remaining_as(meaning) =~= old(
                                self,
                            ).remaining_as(meaning));
                            assert(self.remaining_as(meaning) =~= old(self).remaining_as(
                                meaning,
                            ).drop_first());
                        }
                        return Some(x);
                    }
                },
            }
        }
    }
}

impl<I, F, T> Source for DedupBy<I, F, T> where
    I: Source<Item = T>,
    T: Clone,
    F: Fn(&T, &T) -> bool,
 {
    type Item = T;

    open spec fn wf(&self) -> bool {
        DedupBy::<I, F, T>::wf(self)
    }

    open spec fn remaining(&self) -> Seq<T> {
        DedupBy::<I, F, T>::remaining(self)
    }

    fn next(&mut self) -> (ret: Option<T>) {
        DedupBy::<I, F, T>::next(self)
    }
}

/// Gives every producer the `dedup_by` method.
pub trait DedupByAdapter<F>: Source {
    /// Wraps the producer so that an element comes out only if
    /// `same_bucket(last emitted, element)` answers `false`, or nothing was
    /// emitted before it.
    fn dedup_by(self, same_bucket: F) -> (r: DedupBy<Self, F, Self::Item>) where
        Self: Sized,
        F: Fn(&Self::Item, &Self::Item) -> bool,

        ensures
            r.source() == self,
            r.held() is None,
            r.same() == same_bucket,
    {
        DedupBy { iter: self, current_item: None, same_bucket }
    }
}

impl<I, F> DedupByAdapter<F> for I where I: Source {

}

/// Deduplicating by a test what was deduplicated by that test already
/// changes nothing.
pub proof fn lemma_dedup_by_twice<I, F, T>(
    once: DedupBy<I, F, T>,
    twice: DedupBy<DedupBy<I, F, T>, F, T>,
) where I: Source<Item = T>, T: Clone, F: Fn(&T, &T) -> bool
    requires
        once.held() is None,
        twice.held() is None,
        twice.source() == once,
        twice.same() == once.same(),
    ensures
        twice.remaining() == once.remaining(),
{
    lemma_collapse_idempotent(
        once.source().remaining(),
        by_dup::<T, F>(once.same()),
        keep_item::<T>(),
    );
}

} // verus!
