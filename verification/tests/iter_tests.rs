use ubercopy::iter::Change;
use ubercopy::iter::IterExt;

#[test]
fn change() {
    assert_eq!(Change::Added, Change::Added);
    assert_ne!(Change::Added, Change::Removed);
    assert_eq!(Change::Removed, Change::Removed);
}

#[test]
fn changes_base_case() {
    let a: Vec<u32> = vec![];
    let b: Vec<u32> = vec![];

    let mut c = a.changes(&b);
    assert_eq!(c.next(), None);
}

#[test]
fn changes_left_only() {
    let a: Vec<u32> = vec![1];
    let b: Vec<u32> = vec![];

    let mut c = a.changes(&b);
    assert_eq!(c.next(), Some((1, Change::Removed)));
    assert_eq!(c.next(), None);
}

#[test]
fn changes_right_only() {
    let a: Vec<u32> = vec![];
    let b: Vec<u32> = vec![1];

    let mut c = a.changes(&b);
    assert_eq!(c.next(), Some((1, Change::Added)));
    assert_eq!(c.next(), None);
}

#[test]
fn changes_both_sides() {
    let a: Vec<i32> = vec![1, 2, 3, 4, 6];
    let b: Vec<i32> = vec![1, 3, 4, 5];

    let mut c = a.changes(&b);
    assert_eq!(c.next(), Some((1, Change::Unchanged)));
    assert_eq!(c.next(), Some((2, Change::Removed)));
    assert_eq!(c.next(), Some((3, Change::Unchanged)));
    assert_eq!(c.next(), Some((4, Change::Unchanged)));
    assert_eq!(c.next(), Some((5, Change::Added)));
    assert_eq!(c.next(), Some((6, Change::Removed)));
    assert_eq!(c.next(), None);
}

#[test]
fn adjacent_base_case() {
    let v: Vec<u32> = vec![];
    let mut adj = v.adjacent();
    assert_eq!(adj.next(), None);
    assert_eq!(adj.next(), None);
}

#[test]
fn adjacent_case_1() {
    let v: Vec<i32> = vec![1];
    let mut adj = v.adjacent();
    assert_eq!(adj.next(), Some((1, 1)));
    assert_eq!(adj.next(), None);
}

#[test]
fn adjacent_case_2() {
    let v: Vec<i32> = vec![1, 2, 2, 3, 4, 4, 4];

    let mut adj = v.adjacent();
    assert_eq!(adj.next(), Some((1, 1)));
    assert_eq!(adj.next(), Some((2, 2)));
    assert_eq!(adj.next(), Some((3, 1)));
    assert_eq!(adj.next(), Some((4, 3)));
    assert_eq!(adj.next(), None);
}

#[test]
fn unique_case_1() {
    let v: Vec<i32> = vec![1, 1, 2, 3, 3, 4, 5, 5, 5];
    let mut u = v.unique();
    assert_eq!(u.next(), Some(1));
    assert_eq!(u.next(), Some(2));
    assert_eq!(u.next(), Some(3));
    assert_eq!(u.next(), Some(4));
    assert_eq!(u.next(), Some(5));
    assert_eq!(u.next(), None);
}
