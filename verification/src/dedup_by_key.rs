//! Collapsing runs of elements that share a key.

use vstd::prelude::*;
use vstd::std_specs::cmp::PartialEqSpec;
use crate::runs::{collapse_from, lemma_collapse_idempotent, pulls_for_next};
use crate::source::{is_pull, Source};

verus! {

/// A producer that drops every element whose key equals the key of the one
/// emitted before it. Only the key is retained, never the element.
pub struct DedupByKey<I, F, K> {
    iter: I,
    current_key: Option<K>,
    key: F,
}

/// `key` accepts every element and gives each element one key only.
pub open spec fn is_pure_key<T, K, F: Fn(&T) -> K>(key: F) -> bool {
    &&& forall|x: T| #[trigger] call_requires(key, (&x,))
    &&& forall|x: T, j: K, k: K|
        #![trigger call_ensures(key, (&x,), j), call_ensures(key, (&x,), k)]
        call_ensures(key, (&x,), j) && call_ensures(key, (&x,), k) ==> j == k
}

/// The key that `key` gives to `x`.
pub open spec fn key_of<T, K, F: Fn(&T) -> K>(key: F) -> spec_fn(T) -> K {
    |x: T| choose|k: K| call_ensures(key, (&x,), k)
}

/// Whatever `key` gives to an element is what `meaning` gives to it.
pub open spec fn keys_as<T, K, F: Fn(&T) -> K>(key: F, meaning: spec_fn(T) -> K) -> bool {
    forall|x: T, k: K| #[trigger] call_ensures(key, (&x,), k) ==> k == meaning(x)
}

/// The duplicate test that belongs to the key function `meaning`: the
/// candidate's key equals the retained key under the key type's `==`, the
/// candidate's key on the left.
pub open spec fn same_key<T, K: PartialEq>(meaning: spec_fn(T) -> K) -> spec_fn(K, T) -> bool {
    |held: K, x: T| meaning(x).eq_spec(&held)
}

impl<I, F, K> DedupByKey<I, F, K> {
    /// The wrapped producer.
    pub closed spec fn source(&self) -> I {
        self.iter
    }

    /// The key of the last emitted element, or `None` before the first.
    pub closed spec fn held(&self) -> Option<K> {
        self.current_key
    }

    /// The key function that the adapter was made with.
    pub closed spec fn key(&self) -> F {
        self.key
    }
}

impl<I, F, K> DedupByKey<I, F, K> where
    I: Source,
    F: Fn(&I::Item) -> K,
    K: PartialEq,
 {
    /// The wrapped producer can be pulled from, the key function behaves as
    /// a function of the element it is given, and `==` on keys is the
    /// equality that `same_key` speaks of.
    pub open spec fn wf(&self) -> bool {
        &&& self.source().wf()
        &&& is_pure_key::<I::Item, K, F>(self.key())
        &&& K::obeys_eq_spec()
    }

    /// The elements that the adapter has yet to emit: what is left of the
    /// source, collapsed against the retained key.
    ///
    /// A caller who knows what the key function computes reads the adapter
    /// through `remaining_as` with that meaning; `next` is stated both ways.
    pub open spec fn remaining(&self) -> Seq<I::Item> {
        self.remaining_as(key_of::<I::Item, K, F>(self.key()))
    }

    /// How many elements the next request takes from the source, read with
    /// `meaning` as the key function.
    pub open spec fn pulls(&self, meaning: spec_fn(I::Item) -> K) -> int {
        pulls_for_next(self.source().remaining(), self.held(), same_key::<I::Item, K>(meaning))
    }

    /// The elements that the adapter has yet to emit, read with `meaning` as
    /// the key function.
    pub open spec fn remaining_as(&self, meaning: spec_fn(I::Item) -> K) -> Seq<I::Item> {
        collapse_from(
            self.source().remaining(),
            self.held(),
            same_key::<I::Item, K>(meaning),
            meaning,
        )
    }

    /// Pulls from the source until a candidate is no duplicate of the
    /// retained state, retains and returns it; `None` once the source is
    /// exhausted.
    pub fn next(&mut self) -> (ret: Option<I::Item>)
        requires
            old(self).wf(),
        ensures
            final(self).wf(),
            is_pull(old(self).remaining(), ret, final(self).remaining()),
            forall|meaning: spec_fn(I::Item) -> K| #[trigger]
                keys_as(old(self).key(), meaning) ==> is_pull(
                    old(self).remaining_as(meaning),
                    ret,
                    final(self).remaining_as(meaning),
                ) && (ret matches Some(x) ==> final(self).held() == Some(meaning(x)))
                    && final(self).source().remaining() == old(self).source().remaining().skip(
                    old(self).pulls(meaning),
                ),
            final(self).key() == old(self).key(),
            ret is None ==> final(self).held() == old(self).held()
                && final(self).source().remaining().len() == 0,
            final(self).source().remaining() == old(self).source().remaining().skip(
                old(self).pulls(key_of::<I::Item, K, F>(old(self).key())),
            ),
    {
        let ghost mut pulled: int = 0;
        assert(keys_as(self.key(), key_of::<I::Item, K, F>(self.key())));
        loop
            invariant
                self.wf(),
                forall|meaning: spec_fn(I::Item) -> K| #[trigger]
                    keys_as(self.key(), meaning) ==> self.remaining_as(meaning) == old(
                        self,
                    ).remaining_as(meaning) && pulled + self.pulls(meaning) == old(self).pulls(
                        meaning,
                    ),
                keys_as(self.key(), key_of::<I::Item, K, F>(self.key())),
                self.held() == old(self).held(),
                self.key() == old(self).key(),
                0 <= pulled <= old(self).source().remaining().len(),
                self.source().remaining() == old(self).source().remaining().skip(pulled),
            decreases self.source().remaining().len(),
        {
            let ghost before = *self;
            match self.iter.next() {
                None => {
                    return None;
                },
                Some(x) => {
                    proof {
                        assert(self.source().remaining() =~= old(self).source().remaining().skip(
                            pulled + 1,
                        ));
                        pulled = pulled + 1;
                    }
                    let key = (self.key)(&x);
                    let fresh = match &self.current_key {
                        None => true,
                        Some(cur) => key != *cur,
                    };
                    if fresh {
                        self.current_key = Some(key);
                        assert forall|meaning: spec_fn(I::Item) -> K| #[trigger]
                            keys_as(old(self).key(), meaning) implies is_pull(
                            old(self).remaining_as(meaning),
                            Some(x),
                            self.remaining_as(meaning),
                        ) && self.held() == Some(meaning(x)) && self.source().remaining() == old(
                            self,
                        ).source().remaining().skip(old(self).pulls(meaning)) by {
                            assert(before.pulls(meaning) == 1);
                            assert(seq![x] + self.remaining_as(meaning) =~= old(
                                self,
                            ).remaining_as(meaning));
                            assert(self.remaining_as(meaning) =~= old(self).remaining_as(
                                meaning,
                            ).drop_first());
                        }
                        return Some(x);
                    }
                },
            }
        }
    }
}

impl<I, F, K> Source for DedupByKey<I, F, K> where
    I: Source,
    F: Fn(&I::Item) -> K,
    K: PartialEq,
 {
    type Item = I::Item;

    open spec fn wf(&self) -> bool {
        DedupByKey::<I, F, K>::wf(self)
    }

    open spec fn remaining(&self) -> Seq<I::Item> {
        DedupByKey::<I, F, K>::remaining(self)
    }

    fn next(&mut self) -> (ret: Option<I::Item>) {
        DedupByKey::<I, F, K>::next(self)
    }
}

/// Gives every producer the `dedup_by_key` method.
pub trait DedupByKeyAdapter<F, K>: Source {
    /// Wraps the producer so that an element comes out only if its key
    /// differs from the key of the last emitted element, or nothing was
    /// emitted before it.
    fn dedup_by_key(self, key: F) -> (r: DedupByKey<Self, F, K>) where
        Self: Sized,
        F: Fn(&Self::Item) -> K,

        ensures
            r.source() == self,
            r.held() is None,
            r.key() == key,
    {
        DedupByKey { iter: self, current_key: None, key }
    }
}

impl<I, F, K> DedupByKeyAdapter<F, K> for I where I: Source {

}

/// Deduplicating by a key what was deduplicated by that key already changes
/// nothing.
pub proof fn lemma_dedup_by_key_twice<I, F, K>(
    once: DedupByKey<I, F, K>,
    twice: DedupByKey<DedupByKey<I, F, K>, F, K>,
) where I: Source, F: Fn(&I::Item) -> K, K: PartialEq
    requires
        once.held() is None,
        twice.held() is None,
        twice.source() == once,
        twice.key() == once.key(),
    ensures
        twice.remaining() == once.remaining(),
{
    let key = key_of::<I::Item, K, F>(once.key());
    lemma_collapse_idempotent(once.source().remaining(), same_key::<I::Item, K>(key), key);
}

} // verus!
