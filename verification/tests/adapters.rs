use dedup_iter::{DedupAdapter, DedupByAdapter, DedupByKeyAdapter, SliceSource, Source, VecSource};

fn chars_of(text: &str) -> VecSource<char> {
    VecSource::new(text.chars().collect::<Vec<char>>())
}

fn drain<S: Source>(mut source: S) -> Vec<S::Item> {
    let mut out = Vec::new();
    while let Some(x) = source.next() {
        out.push(x);
    }
    out
}

fn text_of<S: Source<Item = char>>(source: S) -> String {
    drain(source).into_iter().collect::<String>()
}

#[test]
fn remove_duplicate_chars() {
    let t = "Thiss sisssssling ssstring";
    let v = text_of(chars_of(t).dedup());
    assert_eq!(&v, "This sisling string");
}

#[test]
fn remove_duplicate_whitespace() {
    let t = "Hierr zzitt ikk    well      goedd!";
    let v = text_of(chars_of(t).dedup_by(|a, b| a.is_whitespace() && b.is_whitespace()));
    assert_eq!(&v, "Hierr zzitt ikk well goedd!");
}

#[test]
fn almost_acronym() {
    let t = "First In, Last Out";
    let v = text_of(chars_of(t).dedup_by_key(|a| a.is_whitespace()));
    assert_eq!(&v, "F I L O");
}

#[test]
fn dedup_iter_empty() {
    let t = Vec::<u8>::new();
    let c = drain(SliceSource::new(&t).dedup()).len();
    assert_eq!(c, 0);
}

#[test]
fn dedup_iter_numbers() {
    let t = vec![10, 20, 20, 21, 30, 20];
    let v = drain(SliceSource::new(&t).dedup());
    assert_eq!(v, vec![&10, &20, &21, &30, &20]);
}

#[test]
fn dedup_by_eq() {
    let t = "Hierr zzitt ikk    well      goedd!";
    let v = text_of(chars_of(t).dedup_by(|a, b| *a == *b));
    assert_eq!(&v, "Hier zit ik wel goed!");
}

#[derive(Debug, PartialEq)]
struct Person<'a> {
    id: u64,
    name: &'a str,
}

#[test]
fn dedup_by_key() {
    let t = vec![
        Person {
            id: 0,
            name: "Bilbo",
        },
        Person {
            id: 0,
            name: "Bilbo",
        },
    ];
    let v = drain(SliceSource::new(&t).dedup_by_key(|person| person.id));
    assert_eq!(
        v,
        vec![
            &Person {
                id: 0,
                name: "Bilbo",
            },
        ]
    );
}

#[test]
fn dedup_by_always_same() {
    let t = "abdefghijklmopqrstuvwxyz";
    let v = text_of(chars_of(t).dedup_by(|_, _| true));
    assert_eq!(&v, "a");
}

#[test]
fn dedup_by_key_always_same() {
    let t = "abdefghijklmopqrstuvwxyz";
    let v = text_of(chars_of(t).dedup_by_key(|_| 0));
    assert_eq!(&v, "a");
}
