//! The mathematical model shared by the three adapters: what survives when
//! runs of consecutive duplicates are collapsed.

use vstd::prelude::*;

verus! {

/// The elements of `s` that are emitted when the adapter currently retains
/// `held`.
///
/// `dup(r, x)` says that candidate `x` duplicates the retained state `r`, and
/// `keep(x)` is the state retained once `x` has been emitted. A candidate is
/// always judged against the state of the last *emitted* element, never
/// against a suppressed one.
pub open spec fn collapse_from<T, S>(
    s: Seq<T>,
    held: Option<S>,
    dup: spec_fn(S, T) -> bool,
    keep: spec_fn(T) -> S,
) -> Seq<T>
    decreases s.len(),
{
    if s.len() == 0 {
        Seq::empty()
    } else if held is Some && dup(held->0, s[0]) {
        collapse_from(s.drop_first(), held, dup, keep)
    } else {
        seq![s[0]] + collapse_from(s.drop_first(), Some(keep(s[0])), dup, keep)
    }
}

/// How many elements of `s` one request takes from the source when the
/// adapter retains `held`: the duplicates at the front and the element that
/// is emitted after them, or all of `s` if nothing is emitted.
pub open spec fn pulls_for_next<T, S>(s: Seq<T>, held: Option<S>, dup: spec_fn(S, T) -> bool) -> int
    decreases s.len(),
{
    if s.len() == 0 {
        0
    } else if held is Some && dup(held->0, s[0]) {
        1 + pulls_for_next(s.drop_first(), held, dup)
    } else {
        1
    }
}

/// The output of a fresh adapter over the whole source `s`.
pub open spec fn collapse<T, S>(s: Seq<T>, dup: spec_fn(S, T) -> bool, keep: spec_fn(T) -> S) -> Seq<T> {
    collapse_from(s, None, dup, keep)
}

/// `at` places `out` inside `s`: `out[i]` is the element of `s` at position
/// `at[i]`, and the positions grow strictly.
pub open spec fn is_embedding<T>(at: Seq<int>, out: Seq<T>, s: Seq<T>) -> bool {
    &&& at.len() == out.len()
    &&& forall|i: int| 0 <= i < at.len() ==> 0 <= #[trigger] at[i] < s.len() && out[i] == s[at[i]]
    &&& forall|i: int, j: int| 0 <= i < j < at.len() ==> #[trigger] at[i] < #[trigger] at[j]
}

/// The positions in `s` of the elements that `collapse_from` emits.
pub open spec fn emitted_at<T, S>(
    s: Seq<T>,
    held: Option<S>,
    dup: spec_fn(S, T) -> bool,
    keep: spec_fn(T) -> S,
) -> Seq<int>
    decreases s.len(),
{
    if s.len() == 0 {
        Seq::empty()
    } else if held is Some && dup(held->0, s[0]) {
        emitted_at(s.drop_first(), held, dup, keep).map_values(|p: int| p + 1)
    } else {
        seq![0int] + emitted_at(s.drop_first(), Some(keep(s[0])), dup, keep).map_values(
            |p: int| p + 1,
        )
    }
}

/// Where run `k` of a partition ends: at the start of the next run, or at
/// the end of the sequence.
pub open spec fn run_end(starts: Seq<int>, k: int, len: int) -> int {
    if k + 1 < starts.len() {
        starts[k + 1]
    } else {
        len
    }
}

/// `starts` cuts `s` into maximal runs: the first run starts at the front,
/// every element after the first of a run duplicates the state retained for
/// that first element, and the first element of the next run does not.
pub open spec fn is_run_partition<T, S>(
    starts: Seq<int>,
    s: Seq<T>,
    dup: spec_fn(S, T) -> bool,
    keep: spec_fn(T) -> S,
) -> bool {
    &&& s.len() == 0 ==> starts.len() == 0
    &&& s.len() > 0 ==> starts.len() > 0 && starts[0] == 0
    &&& forall|k: int| 0 <= k < starts.len() ==> 0 <= #[trigger] starts[k] < s.len()
    &&& forall|k: int| 0 <= k < starts.len() - 1 ==> #[trigger] starts[k] < starts[k + 1]
    &&& forall|k: int|
        0 <= k < starts.len() - 1 ==> !dup(keep(s[#[trigger] starts[k]]), s[starts[k + 1]])
    &&& forall|k: int, j: int|
        0 <= k < starts.len() && starts[k] < j < run_end(starts, k, s.len() as int) ==> dup(
            keep(s[#[trigger] starts[k]]),
            #[trigger] s[j],
        )
}

/// Nothing comes out of an empty source, whatever is retained.
pub proof fn lemma_collapse_empty<T, S>(
    held: Option<S>,
    dup: spec_fn(S, T) -> bool,
    keep: spec_fn(T) -> S,
)
    ensures
        collapse_from(Seq::<T>::empty(), held, dup, keep) == Seq::<T>::empty(),
        collapse(Seq::<T>::empty(), dup, keep) == Seq::<T>::empty(),
{
}

/// A source of one element gives that element, unchanged.
pub proof fn lemma_collapse_singleton<T, S>(x: T, dup: spec_fn(S, T) -> bool, keep: spec_fn(T) -> S)
    ensures
        collapse(seq![x], dup, keep) == seq![x],
{
    let s = seq![x];
    assert(s.drop_first() =~= Seq::<T>::empty());
    assert(collapse_from(s.drop_first(), Some(keep(x)), dup, keep) =~= Seq::<T>::empty());
    assert(collapse(s, dup, keep) =~= s);
}

/// Nothing comes out of a source whose every element duplicates what is
/// retained.
pub proof fn lemma_collapse_all_suppressed<T, S>(
    s: Seq<T>,
    held: S,
    dup: spec_fn(S, T) -> bool,
    keep: spec_fn(T) -> S,
)
    requires
        forall|j: int| 0 <= j < s.len() ==> dup(held, #[trigger] s[j]),
    ensures
        collapse_from(s, Some(held), dup, keep) == Seq::<T>::empty(),
    decreases s.len(),
{
    if s.len() > 0 {
        assert(dup(held, s[0]));
        assert forall|j: int| 0 <= j < s.drop_first().len() implies dup(
            held,
            #[trigger] s.drop_first()[j],
        ) by {
            assert(s.drop_first()[j] == s[j + 1]);
        }
        lemma_collapse_all_suppressed(s.drop_first(), held, dup, keep);
    }
}

/// A non-empty source in which each element duplicates the one before it,
/// and in which every later element duplicates the first, gives its first
/// element and no other.
pub proof fn lemma_collapse_all_equal<T, S>(
    s: Seq<T>,
    dup: spec_fn(S, T) -> bool,
    keep: spec_fn(T) -> S,
)
    requires
        s.len() > 0,
        forall|i: int| 0 <= i < s.len() - 1 ==> dup(keep(#[trigger] s[i]), s[i + 1]),
        forall|j: int| 0 < j < s.len() ==> dup(keep(s[0]), #[trigger] s[j]),
    ensures
        collapse(s, dup, keep) == seq![s[0]],
{
    let rest = s.drop_first();
    assert forall|j: int| 0 <= j < rest.len() implies dup(keep(s[0]), #[trigger] rest[j]) by {
        assert(rest[j] == s[j + 1]);
    }
    lemma_collapse_all_suppressed(rest, keep(s[0]), dup, keep);
    assert(collapse(s, dup, keep) =~= seq![s[0]]);
}

/// What has come out once is not changed by collapsing it again from the
/// same retained state.
pub proof fn lemma_collapse_from_idempotent<T, S>(
    s: Seq<T>,
    held: Option<S>,
    dup: spec_fn(S, T) -> bool,
    keep: spec_fn(T) -> S,
)
    ensures
        collapse_from(collapse_from(s, held, dup, keep), held, dup, keep) == collapse_from(
            s,
            held,
            dup,
            keep,
        ),
    decreases s.len(),
{
    if s.len() > 0 {
        if held is Some && dup(held->0, s[0]) {
            lemma_collapse_from_idempotent(s.drop_first(), held, dup, keep);
        } else {
            let next = Some(keep(s[0]));
            let tail = collapse_from(s.drop_first(), next, dup, keep);
            let out = collapse_from(s, held, dup, keep);
            lemma_collapse_from_idempotent(s.drop_first(), next, dup, keep);
            assert(out == seq![s[0]] + tail);
            assert(out[0] == s[0]);
            assert(out.drop_first() =~= tail);
        }
    }
}

/// Collapsing twice gives what collapsing once gives.
pub proof fn lemma_collapse_idempotent<T, S>(
    s: Seq<T>,
    dup: spec_fn(S, T) -> bool,
    keep: spec_fn(T) -> S,
)
    ensures
        collapse(collapse(s, dup, keep), dup, keep) == collapse(s, dup, keep),
{
    lemma_collapse_from_idempotent(s, None, dup, keep);
}

/// The output is a subsequence of the input: `emitted_at` places it inside
/// the input with strictly growing positions.
pub proof fn lemma_collapse_subsequence<T, S>(
    s: Seq<T>,
    held: Option<S>,
    dup: spec_fn(S, T) -> bool,
    keep: spec_fn(T) -> S,
)
    ensures
        is_embedding(emitted_at(s, held, dup, keep), collapse_from(s, held, dup, keep), s),
        exists|at: Seq<int>| is_embedding(at, collapse_from(s, held, dup, keep), s),
    decreases s.len(),
{
    let at = emitted_at(s, held, dup, keep);
    let out = collapse_from(s, held, dup, keep);
    if s.len() > 0 {
        let rest = s.drop_first();
        let suppressed = held is Some && dup(held->0, s[0]);
        let next = if suppressed {
            held
        } else {
            Some(keep(s[0]))
        };
        let at_rest = emitted_at(rest, next, dup, keep);
        let out_rest = collapse_from(rest, next, dup, keep);
        lemma_collapse_subsequence(rest, next, dup, keep);
        let shifted = at_rest.map_values(|p: int| p + 1);
        assert forall|i: int| 0 <= i < shifted.len() implies 1 <= #[trigger] shifted[i] < s.len()
            && out_rest[i] == s[shifted[i]] by {
            assert(shifted[i] == at_rest[i] + 1);
            assert(rest[at_rest[i]] == s[at_rest[i] + 1]);
        }
        assert forall|i: int, j: int| 0 <= i < j < shifted.len() implies #[trigger] shifted[i]
            < #[trigger] shifted[j] by {
            assert(at_rest[i] < at_rest[j]);
        }
        if suppressed {
            assert(at == shifted);
            assert(out == out_rest);
        } else {
            assert(at == seq![0int] + shifted);
            assert(out == seq![s[0]] + out_rest);
            assert forall|i: int| 0 <= i < at.len() implies 0 <= #[trigger] at[i] < s.len()
                && out[i] == s[at[i]] by {
                if i > 0 {
                    assert(at[i] == shifted[i - 1]);
                    assert(out[i] == out_rest[i - 1]);
                }
            }
            assert forall|i: int, j: int| 0 <= i < j < at.len() implies #[trigger] at[i]
                < #[trigger] at[j] by {
                assert(at[j] == shifted[j - 1]);
                if i > 0 {
                    assert(at[i] == shifted[i - 1]);
                }
            }
        }
    }
    assert(is_embedding(at, out, s));
}

/// The first elements of the runs that `starts` cuts `s` into.
pub open spec fn run_firsts<T>(starts: Seq<int>, s: Seq<T>) -> Seq<T> {
    Seq::new(starts.len(), |k: int| s[starts[k]])
}

/// Inside run `k`, from position `i` on, with the first element of run `k`
/// retained: what comes out is the first elements of the runs after `k`.
proof fn lemma_collapse_runs_from<T, S>(
    starts: Seq<int>,
    s: Seq<T>,
    k: int,
    i: int,
    dup: spec_fn(S, T) -> bool,
    keep: spec_fn(T) -> S,
)
    requires
        is_run_partition(starts, s, dup, keep),
        0 <= k < starts.len(),
        starts[k] < i <= run_end(starts, k, s.len() as int),
    ensures
        collapse_from(s.skip(i), Some(keep(s[starts[k]])), dup, keep) == run_firsts(starts, s).skip(
            k + 1,
        ),
    decreases s.len() - i,
{
    let held = Some(keep(s[starts[k]]));
    let firsts = run_firsts(starts, s);
    if k + 1 < starts.len() {
        assert(starts[k + 1] < s.len());
    }
    if i == s.len() {
        assert(s.skip(i) =~= Seq::<T>::empty());
        assert(firsts.skip(k + 1) =~= Seq::<T>::empty());
    } else {
        let t = s.skip(i);
        assert(t[0] == s[i]);
        assert(t.drop_first() =~= s.skip(i + 1));
        if k + 1 < starts.len() && i == starts[k + 1] {
            assert(!dup(keep(s[starts[k]]), s[starts[k + 1]]));
            if k + 2 < starts.len() {
                assert(starts[k + 1] < starts[k + 1 + 1]);
            }
            lemma_collapse_runs_from(starts, s, k + 1, i + 1, dup, keep);
            assert(firsts.skip(k + 1) =~= seq![s[i]] + firsts.skip(k + 2));
        } else {
            assert(dup(keep(s[starts[k]]), s[i]));
            lemma_collapse_runs_from(starts, s, k, i + 1, dup, keep);
        }
    }
}

/// However a source is cut into maximal runs of duplicates, the output holds
/// one element for each run, the run's first, in the order of the runs.
pub proof fn lemma_collapse_runs<T, S>(
    starts: Seq<int>,
    s: Seq<T>,
    dup: spec_fn(S, T) -> bool,
    keep: spec_fn(T) -> S,
)
    requires
        is_run_partition(starts, s, dup, keep),
    ensures
        collapse(s, dup, keep) == run_firsts(starts, s),
        collapse(s, dup, keep).len() == starts.len(),
{
    let firsts = run_firsts(starts, s);
    if s.len() == 0 {
        assert(firsts =~= Seq::<T>::empty());
    } else {
        if 1 < starts.len() {
            assert(starts[0int] < starts[0int + 1]);
        }
        lemma_collapse_runs_from(starts, s, 0, 1, dup, keep);
        assert(s.drop_first() =~= s.skip(1));
        assert(firsts =~= seq![s[0]] + firsts.skip(1));
    }
}

/// No emitted element duplicates the one emitted before it, and the first
/// emitted element does not duplicate what was retained.
pub proof fn lemma_collapse_no_adjacent_duplicates<T, S>(
    s: Seq<T>,
    held: Option<S>,
    dup: spec_fn(S, T) -> bool,
    keep: spec_fn(T) -> S,
)
    ensures
        ({
            let out = collapse_from(s, held, dup, keep);
            &&& held is Some && out.len() > 0 ==> !dup(held->0, out[0])
            &&& forall|i: int| 0 <= i < out.len() - 1 ==> !dup(keep(#[trigger] out[i]), out[i + 1])
        }),
    decreases s.len(),
{
    if s.len() > 0 {
        let out = collapse_from(s, held, dup, keep);
        if held is Some && dup(held->0, s[0]) {
            lemma_collapse_no_adjacent_duplicates(s.drop_first(), held, dup, keep);
        } else {
            let tail = collapse_from(s.drop_first(), Some(keep(s[0])), dup, keep);
            lemma_collapse_no_adjacent_duplicates(s.drop_first(), Some(keep(s[0])), dup, keep);
            assert(out == seq![s[0]] + tail);
            assert forall|i: int| 0 <= i < out.len() - 1 implies !dup(
                keep(#[trigger] out[i]),
                out[i + 1],
            ) by {
                assert(out[i + 1] == tail[i]);
                if i > 0 {
                    assert(out[i] == tail[i - 1]);
                }
            }
        }
    }
}

/// Every source can be cut into maximal runs: the positions of the emitted
/// elements are the starts of such a cut.
pub proof fn lemma_emitted_at_is_run_partition<T, S>(
    s: Seq<T>,
    dup: spec_fn(S, T) -> bool,
    keep: spec_fn(T) -> S,
)
    ensures
        is_run_partition(emitted_at(s, None, dup, keep), s, dup, keep),
{
    lemma_emitted_at_runs(s, None, dup, keep);
    lemma_collapse_subsequence(s, None, dup, keep);
}

/// The shape of `emitted_at` from any retained state: what stands before the
/// first emitted position duplicates the retained state, the element at it
/// does not, and from there on the positions cut the source into maximal
/// runs.
proof fn lemma_emitted_at_runs<T, S>(
    s: Seq<T>,
    held: Option<S>,
    dup: spec_fn(S, T) -> bool,
    keep: spec_fn(T) -> S,
)
    ensures
        ({
            let at = emitted_at(s, held, dup, keep);
            &&& held is None && s.len() > 0 ==> at.len() > 0 && at[0] == 0
            &&& s.len() == 0 ==> at.len() == 0
            &&& at.len() > 0 && held is Some ==> !dup(held->0, s[at[0]])
            &&& forall|j: int|
                0 <= j < run_end(at, -1, s.len() as int) && held is Some ==> dup(
                    held->0,
                    #[trigger] s[j],
                )
            &&& forall|k: int| 0 <= k < at.len() ==> 0 <= #[trigger] at[k] < s.len()
            &&& forall|k: int| 0 <= k < at.len() - 1 ==> #[trigger] at[k] < at[k + 1]
            &&& forall|k: int|
                0 <= k < at.len() - 1 ==> !dup(keep(s[#[trigger] at[k]]), s[at[k + 1]])
            &&& forall|k: int, j: int|
                0 <= k < at.len() && at[k] < j < run_end(at, k, s.len() as int) ==> dup(
                    keep(s[#[trigger] at[k]]),
                    #[trigger] s[j],
                )
        }),
    decreases s.len(),
{
    let at = emitted_at(s, held, dup, keep);
    if s.len() > 0 {
        let rest = s.drop_first();
        let suppressed = held is Some && dup(held->0, s[0]);
        let next = if suppressed {
            held
        } else {
            Some(keep(s[0]))
        };
        let at_rest = emitted_at(rest, next, dup, keep);
        let shifted = at_rest.map_values(|p: int| p + 1);
        lemma_emitted_at_runs(rest, next, dup, keep);
        assert forall|k: int| 0 <= k < shifted.len() implies #[trigger] shifted[k] == at_rest[k] + 1
            && s[shifted[k]] == rest[at_rest[k]] by {}
        assert forall|j: int| 1 <= j < s.len() implies #[trigger] s[j] == rest[j - 1] by {}
        assert forall|k: int|
            -1 <= k < shifted.len() implies run_end(shifted, k, s.len() as int) == run_end(
            at_rest,
            k,
            rest.len() as int,
        ) + 1 by {}
        if suppressed {
            assert(at == shifted);
            assert forall|j: int|
                0 <= j < run_end(at, -1, s.len() as int) && held is Some implies dup(
                held->0,
                #[trigger] s[j],
            ) by {
                if j > 0 {
                    assert(s[j] == rest[j - 1]);
                }
            }
            assert forall|k: int, j: int|
                0 <= k < at.len() && at[k] < j < run_end(at, k, s.len() as int) implies dup(
                keep(s[#[trigger] at[k]]),
                #[trigger] s[j],
            ) by {
                assert(s[j] == rest[j - 1]);
                assert(at_rest[k] < j - 1 < run_end(at_rest, k, rest.len() as int));
            }
        } else {
            assert(at == seq![0int] + shifted);
            assert forall|k: int| 1 <= k < at.len() implies #[trigger] at[k] == shifted[k - 1] by {}
            assert forall|k: int| 0 <= k < at.len() - 1 implies #[trigger] at[k] < at[k + 1] by {
                assert(at[k + 1] == shifted[k]);
                if k > 0 {
                    assert(at[k] == shifted[k - 1]);
                    assert(at_rest[k - 1] < at_rest[k - 1 + 1]);
                }
            }
            assert forall|k: int| 0 <= k < at.len() - 1 implies !dup(
                keep(s[#[trigger] at[k]]),
                s[at[k + 1]],
            ) by {
                assert(at[k + 1] == shifted[k]);
                if k > 0 {
                    assert(at[k] == shifted[k - 1]);
                    assert(!dup(keep(rest[at_rest[k - 1]]), rest[at_rest[k - 1 + 1]]));
                }
            }
            assert forall|k: int, j: int|
                0 <= k < at.len() && at[k] < j < run_end(at, k, s.len() as int) implies dup(
                keep(s[#[trigger] at[k]]),
                #[trigger] s[j],
            ) by {
                assert(s[j] == rest[j - 1]);
                assert(run_end(at, k, s.len() as int) == run_end(
                    shifted,
                    k - 1,
                    s.len() as int,
                ));
                if k > 0 {
                    assert(at[k] == shifted[k - 1]);
                    assert(at_rest[k - 1] < j - 1 < run_end(
                        at_rest,
                        k - 1,
                        rest.len() as int,
                    ));
                } else {
                    assert(0 <= j - 1 < run_end(at_rest, -1, rest.len() as int));
                }
            }
        }
    }
}

} // verus!
