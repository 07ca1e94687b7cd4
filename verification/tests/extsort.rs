use extsort::ExtSorter;
use extsort::records::Num;

fn drain(mut iter: extsort::ExtSortedIterator<Num>) -> Vec<u8> {
    let mut out = Vec::new();
    while let Some(item) = iter.next() {
        out.push(item.unwrap().the_num);
    }
    out
}

#[test]
fn sort() {
    let unsorted = vec![
        Num::new(5),
        Num::new(2),
        Num::new(1),
        Num::new(3),
        Num::new(4),
    ];
    let sorted = vec![
        Num::new(1),
        Num::new(2),
        Num::new(3),
        Num::new(4),
        Num::new(5),
    ];
    let iter = ExtSorter::new(2).unwrap().sort(unsorted).unwrap();
    for (idx, i) in drain(iter).into_iter().enumerate() {
        assert_eq!(i, sorted[idx].the_num);
    }
}

#[test]
fn zero_buff() {
    let unsorted = vec![
        Num::new(5),
        Num::new(2),
        Num::new(1),
        Num::new(3),
        Num::new(4),
    ];
    let sorted = vec![
        Num::new(1),
        Num::new(2),
        Num::new(3),
        Num::new(4),
        Num::new(5),
    ];
    let iter = ExtSorter::new(0).unwrap().sort(unsorted).unwrap();
    for (idx, i) in drain(iter).into_iter().enumerate() {
        assert_eq!(i, sorted[idx].the_num);
    }
}

#[test]
fn large_buff() {
    let unsorted = vec![
        Num::new(5),
        Num::new(2),
        Num::new(1),
        Num::new(3),
        Num::new(4),
    ];
    let sorted = vec![
        Num::new(1),
        Num::new(2),
        Num::new(3),
        Num::new(4),
        Num::new(5),
    ];
    let iter = ExtSorter::new(999999999).unwrap().sort(unsorted).unwrap();
    for (idx, i) in drain(iter).into_iter().enumerate() {
        assert_eq!(i, sorted[idx].the_num);
    }
}

#[test]
fn reuse() {
    let unsorted = vec![
        Num::new(5),
        Num::new(2),
        Num::new(1),
        Num::new(3),
        Num::new(4),
    ];
    let sorted = vec![
        Num::new(1),
        Num::new(2),
        Num::new(3),
        Num::new(4),
        Num::new(5),
    ];
    let iter = ExtSorter::new(2).unwrap().sort(unsorted.clone()).unwrap();
    for (idx, i) in drain(iter).into_iter().enumerate() {
        assert_eq!(i, sorted[idx].the_num);
    }
    let iter2 = ExtSorter::new(2).unwrap().sort(unsorted).unwrap();
    for (idx, i) in drain(iter2).into_iter().enumerate() {
        assert_eq!(i, sorted[idx].the_num);
    }
}

#[test]
fn large() {
    let mut unsorted = Vec::new();
    for _ in 0..10_000 {
        unsorted.push(Num::new(rand::random()));
    }
    let iter = ExtSorter::new(100).unwrap().sort(unsorted).unwrap();
    let out = drain(iter);
    assert_eq!(out.len(), 10_000);
    let mut last = 0;
    for n in out {
        assert!(n >= last);
        last = n;
    }
}
