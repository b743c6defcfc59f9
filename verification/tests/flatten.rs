use rune_interpreter::flatten::{flatten, Nested};

fn item(x: i32) -> Nested<i32> {
    Nested::Item(x)
}

fn list(v: Vec<Nested<i32>>) -> Nested<i32> {
    Nested::List(v)
}

#[test]
fn test_flat_default_depth_one() {
    // [1, [2, [3, [4]]]].flat() -> [1, 2, [3, [4]]]
    let a = vec![item(1), list(vec![item(2), list(vec![item(3), list(vec![item(4)])])])];
    let r = flatten(&a, 1);
    assert_eq!(r, vec![item(1), item(2), list(vec![item(3), list(vec![item(4)])])]);
}

#[test]
fn test_flat_depths() {
    let a = vec![item(1), list(vec![item(2), list(vec![item(3), list(vec![item(4)])])])];
    assert_eq!(flatten(&a, 0), vec![item(1), list(vec![item(2), list(vec![item(3), list(vec![item(4)])])])]);
    assert_eq!(flatten(&a, u32::MAX), vec![item(1), item(2), item(3), item(4)]);
    // flattening twice by one level is flattening by two
    assert_eq!(flatten(&flatten(&a, 1), 1), flatten(&a, 2));
    assert_eq!(flatten(&a, 2), vec![item(1), item(2), item(3), list(vec![item(4)])]);
}

#[test]
fn test_flat_empty_lists_vanish() {
    let a = vec![list(vec![]), item(5), list(vec![list(vec![])])];
    assert_eq!(flatten(&a, 1), vec![item(5), list(vec![])]);
    assert_eq!(flatten(&a, 2), vec![item(5)]);
}
