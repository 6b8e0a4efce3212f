use dedup_iter::{DedupAdapter, DedupByAdapter, DedupByKeyAdapter, SliceSource, Source, VecSource};
use std::cell::Cell;

fn all<S: Source>(mut source: S) -> Vec<S::Item> {
    let mut out = Vec::new();
    while let Some(x) = source.next() {
        out.push(x);
    }
    out
}

fn letters(text: &str) -> Vec<char> {
    text.chars().collect::<Vec<char>>()
}

fn word<S: Source<Item = char>>(source: S) -> String {
    all(source).into_iter().collect::<String>()
}

#[test]
fn dedup_collapses_letter_runs() {
    let v = word(VecSource::new(letters("aabbccdddeeeeffffeee")).dedup());
    assert_eq!(v, "abcdefe");
}

#[test]
fn dedup_by_collapses_whitespace_runs() {
    let t = letters("This  string   had useless   spaces");
    let v = word(VecSource::new(t).dedup_by(|a, b| a.is_whitespace() && b.is_whitespace()));
    assert_eq!(v, "This string had useless spaces");
}

#[test]
fn dedup_by_key_collapses_letter_runs() {
    let t = letters("aabbccdddeeeeffffeee");
    let v = word(VecSource::new(t).dedup_by_key(|a| u32::from(*a)));
    assert_eq!(v, "abcdefe");
}

#[test]
fn dedup_keeps_a_later_repeat() {
    let v = all(VecSource::new(vec![10, 20, 20, 21, 30, 20]).dedup());
    assert_eq!(v, vec![10, 20, 21, 30, 20]);
}

#[test]
fn empty_source_gives_nothing() {
    assert_eq!(all(VecSource::new(Vec::<u32>::new()).dedup()), Vec::<u32>::new());
    assert_eq!(all(VecSource::new(Vec::<u32>::new()).dedup_by(|a, b| a == b)), Vec::<u32>::new());
    assert_eq!(all(VecSource::new(Vec::<u32>::new()).dedup_by_key(|a| *a)), Vec::<u32>::new());
}

#[test]
fn single_element_comes_out_unchanged() {
    assert_eq!(all(VecSource::new(vec![7u32]).dedup()), vec![7u32]);
    assert_eq!(all(VecSource::new(vec![7u32]).dedup_by(|_, _| true)), vec![7u32]);
    assert_eq!(all(VecSource::new(vec![7u32]).dedup_by_key(|_| 0u8)), vec![7u32]);
}

#[test]
fn all_equal_source_gives_its_first_element() {
    assert_eq!(all(VecSource::new(vec![4u32, 4, 4, 4]).dedup()), vec![4u32]);
    assert_eq!(all(VecSource::new(vec![4u32, 5, 6]).dedup_by(|_, _| true)), vec![4u32]);
    assert_eq!(all(VecSource::new(vec![4u32, 5, 6]).dedup_by_key(|_| 0u8)), vec![4u32]);
}

#[test]
fn applying_an_adapter_twice_changes_nothing() {
    let t = vec![1u32, 1, 2, 2, 2, 3, 1, 1];
    let once = all(VecSource::new(t.clone()).dedup());
    let twice = all(VecSource::new(t.clone()).dedup().dedup());
    assert_eq!(once, vec![1u32, 2, 3, 1]);
    assert_eq!(twice, once);

    let near = |a: &u32, b: &u32| a / 2 == b / 2;
    let once = all(VecSource::new(t.clone()).dedup_by(near));
    let twice = all(VecSource::new(t.clone()).dedup_by(near).dedup_by(near));
    assert_eq!(once, vec![1u32, 2, 1]);
    assert_eq!(twice, once);

    let half = |a: &u32| a / 2;
    let once = all(VecSource::new(t.clone()).dedup_by_key(half));
    let twice = all(VecSource::new(t).dedup_by_key(half).dedup_by_key(half));
    assert_eq!(once, vec![1u32, 2, 1]);
    assert_eq!(twice, once);
}

#[test]
fn output_is_a_subsequence_in_order() {
    let t = vec![5u32, 5, 3, 3, 9, 5, 5, 1];
    let out = all(VecSource::new(t.clone()).dedup());
    assert_eq!(out, vec![5u32, 3, 9, 5, 1]);
    let mut at = 0usize;
    for x in out.iter() {
        while t[at] != *x {
            at += 1;
        }
        at += 1;
    }
    assert!(at <= t.len());
}

#[test]
fn one_element_for_each_run() {
    let t = vec![(1u8, 'a'), (1, 'b'), (2, 'c'), (2, 'd'), (2, 'e'), (1, 'f')];
    let out = all(VecSource::new(t).dedup_by_key(|p| p.0));
    assert_eq!(out, vec![(1u8, 'a'), (2, 'c'), (1, 'f')]);
}

#[test]
fn predicate_gets_the_last_emitted_element_first() {
    // Suppress a candidate only when it is larger than the retained element.
    let out = all(VecSource::new(vec![3u32, 5, 4, 2, 6, 1]).dedup_by(|held, x| held < x));
    assert_eq!(out, vec![3u32, 2, 1]);
}

#[test]
fn candidate_is_judged_against_the_last_emitted_element() {
    // 2 is close to 1 and is dropped; 3 is close to 2 but not to 1.
    let close = |a: &i32, b: &i32| (a - b).abs() <= 1;
    let out = all(VecSource::new(vec![1, 2, 3, 4, 5]).dedup_by(close));
    assert_eq!(out, vec![1, 3, 5]);
}

#[test]
fn key_function_is_called_once_for_each_candidate() {
    let calls = Cell::new(0u32);
    let out = all(VecSource::new(vec![1u32, 1, 2, 2, 3]).dedup_by_key(|x| {
        calls.set(calls.get() + 1);
        *x
    }));
    assert_eq!(out, vec![1u32, 2, 3]);
    assert_eq!(calls.get(), 5);
}

#[test]
fn predicate_is_called_at_most_once_for_each_candidate() {
    let calls = Cell::new(0u32);
    let out = all(VecSource::new(vec![1u32, 1, 2, 2, 3]).dedup_by(|a, b| {
        calls.set(calls.get() + 1);
        a == b
    }));
    assert_eq!(out, vec![1u32, 2, 3]);
    assert_eq!(calls.get(), 4);
}

#[test]
fn nothing_is_pulled_before_the_first_request() {
    let t = vec![1u32, 1, 2];
    let mut d = SliceSource::new(&t).dedup();
    assert_eq!(d.next(), Some(&1));
    assert_eq!(d.next(), Some(&2));
    assert_eq!(d.next(), None);
    assert_eq!(d.next(), None);
}

#[test]
fn slice_source_hands_out_references_in_order() {
    let t = vec!['x', 'y', 'z'];
    let mut s = SliceSource::new(&t);
    assert_eq!(s.next(), Some(&'x'));
    assert_eq!(s.next(), Some(&'y'));
    assert_eq!(s.next(), Some(&'z'));
    assert_eq!(s.next(), None);
}

#[test]
fn vec_source_hands_out_elements_in_order() {
    let mut s = VecSource::new(vec![String::from("a"), String::from("b")]);
    assert_eq!(s.next(), Some(String::from("a")));
    assert_eq!(s.next(), Some(String::from("b")));
    assert_eq!(s.next(), None);
}

#[test]
fn adapters_compose() {
    let t = letters("aa  bb   cd");
    let v = word(
        VecSource::new(t).dedup().dedup_by_key(|c| c.is_whitespace()),
    );
    assert_eq!(v, "a b c");
}
