use rune_interpreter::sort::{default_order, MergeSorter, MergeStep};
use std::cmp::Ordering;

/// Drive a sorter over `keys`, counting the comparisons it asks for.
fn drive(keys: &[i64]) -> (Vec<usize>, usize) {
    let mut s = MergeSorter::new(keys.len());
    let mut asked = 0;
    loop {
        match s.merge_step() {
            MergeStep::Compare(x, y) => {
                asked += 1;
                assert!(x < keys.len() && y < keys.len());
                s.place(keys[x].cmp(&keys[y]));
            }
            MergeStep::Progress => {}
            MergeStep::Finished => break,
        }
    }
    assert!(s.is_done());
    (s.order().clone(), asked)
}

#[test]
fn test_sort_empty_and_single() {
    let s = MergeSorter::new(0);
    assert!(s.is_done());
    assert!(s.order().is_empty());
    let mut s = MergeSorter::new(1);
    assert!(s.is_done());
    assert_eq!(s.merge_step(), MergeStep::Finished);
    assert_eq!(s.order(), &vec![0]);
}

#[test]
fn test_sort_two_asks_once() {
    let mut s = MergeSorter::new(2);
    assert_eq!(s.merge_step(), MergeStep::Compare(0, 1));
    // asking again changes nothing
    assert_eq!(s.merge_step(), MergeStep::Compare(0, 1));
    s.place(Ordering::Greater);
    assert!(!s.is_done());
    // the left run is carried over without another comparison
    assert_eq!(s.merge_step(), MergeStep::Progress);
    assert!(s.is_done());
    assert_eq!(s.order(), &vec![1, 0]);
    assert_eq!(s.merge_step(), MergeStep::Finished);
}

#[test]
fn test_sort_is_stable() {
    let keys = [3, 1, 2, 1, 0];
    let (order, _) = drive(&keys);
    assert_eq!(order, vec![4, 1, 3, 2, 0]);
}

#[test]
fn test_sort_equal_keys_keep_order() {
    let keys = [7; 9];
    let (order, _) = drive(&keys);
    assert_eq!(order, (0..9).collect::<Vec<usize>>());
}

#[test]
fn test_sort_reverse_and_odd_lengths() {
    for n in 0..40usize {
        let keys: Vec<i64> = (0..n).map(|t| (n - t) as i64).collect();
        let (order, asked) = drive(&keys);
        let expect: Vec<usize> = (0..n).rev().collect();
        assert_eq!(order, expect);
        assert!(asked <= n * 6);
    }
}

#[test]
fn test_sort_mixed_matches_std_stable_sort() {
    let keys: Vec<i64> = (0..101).map(|t: i64| (t * 37 + 11) % 17 - 8).collect();
    let (order, _) = drive(&keys);
    let mut expect: Vec<usize> = (0..keys.len()).collect();
    expect.sort_by_key(|&p| keys[p]);
    assert_eq!(order, expect);
}

#[test]
fn test_sort_inconsistent_comparator_gives_permutation() {
    let mut s = MergeSorter::new(13);
    let mut flip = false;
    loop {
        match s.merge_step() {
            MergeStep::Compare(_, _) => {
                flip = !flip;
                s.place(if flip { Ordering::Greater } else { Ordering::Less });
            }
            MergeStep::Progress => {}
            MergeStep::Finished => break,
        }
    }
    let mut seen = s.order().clone();
    seen.sort();
    assert_eq!(seen, (0..13).collect::<Vec<usize>>());
}

#[test]
fn test_default_order() {
    let u = |s: &str| s.encode_utf16().collect::<Vec<u16>>();
    let (a, b, ab, ten, nine) = (u("a"), u("b"), u("ab"), u("10"), u("9"));
    assert_eq!(default_order(Some(&a), Some(&b)), Ordering::Less);
    assert_eq!(default_order(Some(&b), Some(&a)), Ordering::Greater);
    assert_eq!(default_order(Some(&a), Some(&ab)), Ordering::Less);
    assert_eq!(default_order(Some(&ab), Some(&ab)), Ordering::Equal);
    // string order, not numeric
    assert_eq!(default_order(Some(&ten), Some(&nine)), Ordering::Less);
    // undefined goes last
    assert_eq!(default_order(None, Some(&a)), Ordering::Greater);
    assert_eq!(default_order(Some(&a), None), Ordering::Less);
    assert_eq!(default_order(None, None), Ordering::Equal);
    // surrogates compare as code units
    let astral = u("\u{1F600}");
    let bmp = u("\u{FFFF}");
    assert_eq!(default_order(Some(&astral), Some(&bmp)), Ordering::Less);
}
