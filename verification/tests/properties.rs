use std::io::Seek;

use extsort::{ExtSorter, Sortable};
use extsort::records::{Marked, Num};

#[test]
fn empty_input_ends_at_once() {
    let mut iter = ExtSorter::<Num>::new(4).unwrap().sort(Vec::new()).unwrap();
    assert!(iter.next().is_none());
    assert!(iter.next().is_none());
}

#[test]
fn output_length_matches_input() {
    let unsorted = vec![Num::new(9), Num::new(0), Num::new(9), Num::new(3)];
    let mut iter = ExtSorter::new(3).unwrap().sort(unsorted).unwrap();
    let mut count = 0;
    while let Some(item) = iter.next() {
        item.unwrap();
        count += 1;
    }
    assert_eq!(count, 4);
}

#[test]
fn equal_keys_all_survive() {
    let unsorted = vec![Num::new(7), Num::new(7), Num::new(7), Num::new(1)];
    let mut iter = ExtSorter::new(2).unwrap().sort(unsorted).unwrap();
    let mut out = Vec::new();
    while let Some(item) = iter.next() {
        out.push(item.unwrap().the_num);
    }
    assert_eq!(out, vec![1, 7, 7, 7]);
}

#[test]
fn sorter_in_chosen_directory() {
    let parent = tempfile::tempdir().unwrap();
    let unsorted = vec![Num::new(2), Num::new(1)];
    let mut iter = ExtSorter::new_in(1, parent.path().to_str().unwrap())
        .unwrap()
        .sort(unsorted)
        .unwrap();
    assert_eq!(iter.next().unwrap().unwrap().the_num, 1);
    assert_eq!(iter.next().unwrap().unwrap().the_num, 2);
    assert!(iter.next().is_none());
}

#[test]
fn record_round_trip() {
    let mut f = tempfile::SpooledTempFile::new(0);
    Num::new(42).serialize(&mut f).unwrap();
    f.seek(std::io::SeekFrom::Start(0)).unwrap();
    let back = Num::deserialize(&mut f).unwrap().unwrap();
    assert_eq!(back, Num::new(42));
    assert!(Num::deserialize(&mut f).is_none());
}

#[test]
fn marked_record_round_trip() {
    let mut f = tempfile::SpooledTempFile::new(0);
    Marked::new(11).serialize(&mut f).unwrap();
    Marked::new(250).serialize(&mut f).unwrap();
    f.seek(std::io::SeekFrom::Start(0)).unwrap();
    assert_eq!(Marked::deserialize(&mut f).unwrap().unwrap(), Marked::new(11));
    assert_eq!(Marked::deserialize(&mut f).unwrap().unwrap(), Marked::new(250));
    assert!(Marked::deserialize(&mut f).is_none());
}

#[test]
fn corrupt_record_fails_to_deserialize() {
    let mut f = tempfile::SpooledTempFile::new(0);
    Marked::corrupt(5).serialize(&mut f).unwrap();
    f.seek(std::io::SeekFrom::Start(0)).unwrap();
    assert!(Marked::deserialize(&mut f).unwrap().is_err());
}

#[test]
fn fault_mid_merge_poisons_iterator() {
    // chunks are [1, 3] and [2, bad 4]: the merge emits 1, then meets the
    // corrupt record while refilling from the second chunk, yields exactly
    // one error, and then nothing, though 3 is still unread
    let unsorted = vec![
        Marked::new(1),
        Marked::new(3),
        Marked::new(2),
        Marked::corrupt(4),
    ];
    let mut iter = ExtSorter::new(2).unwrap().sort(unsorted).unwrap();
    assert_eq!(iter.next().unwrap().unwrap(), Marked::new(1));
    assert!(iter.next().unwrap().is_err());
    assert!(iter.next().is_none());
    assert!(iter.next().is_none());
}
