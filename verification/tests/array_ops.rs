use rune_interpreter::array_ops::{slice_bounds, slice_elements, SliceError, reverse_elements, shift_elements, unshift_elements, with_element, UnshiftError, WithError};
use rune_interpreter::array_ops::{
    copy_count, copy_within_elements, splice_elements, splice_plan, SplicePlan, SpliceError,
    MAX_SAFE_INTEGER,
};

fn arr(v: &[i32]) -> Vec<Option<i32>> {
    v.iter().map(|&x| Some(x)).collect()
}

#[test]
fn test_splice_plan_arguments() {
    // no arguments: nothing removed
    assert_eq!(splice_plan(5, 0, 0, 0), Ok(SplicePlan { start: 0, delete: 0, items: 0, new_len: 5 }));
    // one argument: everything from the start
    assert_eq!(splice_plan(5, 1, 2, 0), Ok(SplicePlan { start: 2, delete: 3, items: 0, new_len: 2 }));
    // negative start counts from the end; count clamped to what follows
    assert_eq!(splice_plan(5, 2, -2, 10), Ok(SplicePlan { start: 3, delete: 2, items: 0, new_len: 3 }));
    assert_eq!(splice_plan(5, 4, 1, -3), Ok(SplicePlan { start: 1, delete: 0, items: 2, new_len: 7 }));
    assert_eq!(splice_plan(5, 3, 99, 1), Ok(SplicePlan { start: 5, delete: 0, items: 1, new_len: 6 }));
    assert_eq!(splice_plan(5, 2, i64::MIN, 1), Ok(SplicePlan { start: 0, delete: 1, items: 0, new_len: 4 }));
}

#[test]
fn test_splice_plan_errors() {
    assert_eq!(splice_plan(MAX_SAFE_INTEGER, 3, 0, 0), Err(SpliceError::TooLong));
    assert_eq!(splice_plan(MAX_SAFE_INTEGER, 3, 0, 1), Ok(SplicePlan {
        start: 0,
        delete: 1,
        items: 1,
        new_len: MAX_SAFE_INTEGER
    }));
    assert_eq!(splice_plan(5_000_000_000, 1, 0, 0), Err(SpliceError::InvalidLength));
}

#[test]
fn test_splice_elements_shrink_and_grow() {
    let mut a = arr(&[1, 2, 3, 4, 5]);
    let d = splice_elements(&mut a, 1, 3, &[9]);
    assert_eq!(d, arr(&[2, 3, 4]));
    assert_eq!(a, arr(&[1, 9, 5]));

    let mut a = arr(&[1, 2, 3]);
    let d = splice_elements(&mut a, 1, 1, &[7, 8, 9]);
    assert_eq!(d, arr(&[2]));
    assert_eq!(a, arr(&[1, 7, 8, 9, 3]));

    let mut a = arr(&[1, 2, 3]);
    let d = splice_elements(&mut a, 3, 0, &[4]);
    assert!(d.is_empty());
    assert_eq!(a, arr(&[1, 2, 3, 4]));

    let mut a = arr(&[1, 2, 3]);
    let d = splice_elements(&mut a, 0, 3, &[]);
    assert_eq!(d, arr(&[1, 2, 3]));
    assert!(a.is_empty());
}

#[test]
fn test_splice_elements_keeps_holes() {
    let mut a = vec![Some(1), None, Some(3), None, Some(5)];
    let d = splice_elements(&mut a, 0, 1, &[]);
    assert_eq!(d, vec![Some(1)]);
    assert_eq!(a, vec![None, Some(3), None, Some(5)]);
    let d = splice_elements(&mut a, 1, 0, &[0, 0]);
    assert!(d.is_empty());
    assert_eq!(a, vec![None, Some(0), Some(0), Some(3), None, Some(5)]);
}

#[test]
fn test_splice_undo_restores() {
    let orig = arr(&[10, 20, 30, 40]);
    let mut a = orig.clone();
    let d = splice_elements(&mut a, 1, 2, &[1, 2, 3]);
    let back: Vec<i32> = d.iter().map(|x| x.unwrap()).collect();
    splice_elements(&mut a, 1, 3, &back);
    assert_eq!(a, orig);
}

#[test]
fn test_copy_within() {
    // [1,2,3,4,5].copyWithin(0, 3) -> [4,5,3,4,5]
    let mut a = arr(&[1, 2, 3, 4, 5]);
    let n = copy_count(5, 0, 3, 5);
    assert_eq!(n, 2);
    copy_within_elements(&mut a, 0, 3, n as usize);
    assert_eq!(a, arr(&[4, 5, 3, 4, 5]));
    // overlapping to the right copies the original elements
    let mut a = arr(&[1, 2, 3, 4, 5]);
    let n = copy_count(5, 1, 0, 5);
    assert_eq!(n, 4);
    copy_within_elements(&mut a, 1, 0, n as usize);
    assert_eq!(a, arr(&[1, 1, 2, 3, 4]));
    // holes copy as holes
    let mut a = vec![None, Some(2), Some(3)];
    copy_within_elements(&mut a, 1, 0, 2);
    assert_eq!(a, vec![None, None, Some(2)]);
    assert_eq!(copy_count(5, 4, 0, 5), 1);
    assert_eq!(copy_count(5, 0, 4, 2), 0);
}

#[test]
fn test_reverse_elements() {
    let mut a = vec![Some(1), None, Some(3), Some(4), None];
    reverse_elements(&mut a);
    assert_eq!(a, vec![None, Some(4), Some(3), None, Some(1)]);
    reverse_elements(&mut a);
    assert_eq!(a, vec![Some(1), None, Some(3), Some(4), None]);
    let mut e: Vec<Option<u8>> = vec![];
    reverse_elements(&mut e);
    assert!(e.is_empty());
    let mut one = vec![Some(9)];
    reverse_elements(&mut one);
    assert_eq!(one, vec![Some(9)]);
}

#[test]
fn test_shift_and_unshift() {
    let mut a = vec![None, Some(2), Some(3)];
    assert_eq!(shift_elements(&mut a), Some(None));
    assert_eq!(a, vec![Some(2), Some(3)]);
    assert_eq!(shift_elements(&mut a), Some(Some(2)));
    assert_eq!(a, vec![Some(3)]);
    let mut e: Vec<Option<i32>> = vec![];
    assert_eq!(shift_elements(&mut e), None);
    assert_eq!(unshift_elements(&mut a, &[1, 2]), Ok(()));
    assert_eq!(a, vec![Some(1), Some(2), Some(3)]);
    assert_eq!(unshift_elements(&mut a, &[]), Ok(()));
    assert_eq!(a, vec![Some(1), Some(2), Some(3)]);
    let _ = UnshiftError::TooLong;
}

#[test]
fn test_with_element() {
    assert_eq!(with_element(&[1, 2, 3], 1, 9), Ok(vec![1, 9, 3]));
    assert_eq!(with_element(&[1, 2, 3], -1, 9), Ok(vec![1, 2, 9]));
    assert_eq!(with_element(&[1, 2, 3], 3, 9), Err(WithError::InvalidIndex));
    assert_eq!(with_element(&[1, 2, 3], -4, 9), Err(WithError::InvalidIndex));
    assert_eq!(with_element::<i32>(&[], 0, 9), Err(WithError::InvalidIndex));
}

#[test]
fn test_slice() {
    let a = vec![Some(1), None, Some(3), Some(4), Some(5)];
    assert_eq!(slice_elements(&a, 1, Some(3)), Ok(vec![None, Some(3)]));
    assert_eq!(slice_elements(&a, -2, None), Ok(vec![Some(4), Some(5)]));
    assert_eq!(slice_elements(&a, 3, Some(1)), Ok(vec![]));
    assert_eq!(slice_elements(&a, 0, Some(-1)), Ok(vec![Some(1), None, Some(3), Some(4)]));
    assert_eq!(slice_bounds(10, 2, Some(-3)), (2, 7));
    assert_eq!(slice_bounds(10, 8, Some(2)), (8, 8));
    assert_eq!(slice_bounds(6_000_000_000, 0, None), (0, 6_000_000_000));
    let _ = SliceError::InvalidLength;
}

#[test]
fn test_refusal_messages() {
    assert_eq!(SpliceError::TooLong.message(), "Splice exceeds the maximum array length");
    assert_eq!(SpliceError::InvalidLength.message(), "Invalid array length");
    assert_eq!(UnshiftError::TooLong.message(), "Unshifting elements exceeds the maximum array length");
    assert_eq!(WithError::InvalidIndex.message(), "Invalid array index");
    assert_eq!(SliceError::InvalidLength.message(), "Invalid array length");
}
