use lru_cache::deque::Deque;

fn deque_of(values: &[i64]) -> Deque<i64> {
    let mut d = Deque::create();
    for v in values {
        d.push_right(*v);
    }
    d
}

fn values_of(d: &Deque<i64>) -> Vec<i64> {
    let mut out = Vec::new();
    let mut it = d.into_iter();
    while let Some(item) = it.next() {
        out.push(*item.value());
    }
    out
}

#[test]
fn creates_an_empty_deque() {
    let d: Deque<usize> = Deque::create();
    assert_eq!(0, d.len());
    assert_eq!(None, d.first());
    assert_eq!(None, d.last());
}

#[test]
fn deque_push_left_once() {
    let mut data: Deque<usize> = Deque::create();
    data.push_left(1);

    assert_eq!(1, data.len());

    let first = data.first().unwrap();
    assert_eq!(&1, first.value());
    assert_eq!(None, first.left());
    assert_eq!(None, first.right());

    let last = data.last().unwrap();
    assert_eq!(&1, last.value());
    assert_eq!(None, last.left());
    assert_eq!(None, last.right());
}

#[test]
fn push_right_once() {
    let mut data: Deque<usize> = Deque::create();
    data.push_right(1);

    assert_eq!(1, data.len());

    let first = data.first().unwrap();
    assert_eq!(&1, first.value());
    assert_eq!(None, first.left());
    assert_eq!(None, first.right());

    let last = data.last().unwrap();
    assert_eq!(&1, last.value());
    assert_eq!(None, last.left());
    assert_eq!(None, last.right());
}

#[test]
fn pop_right_once_with_single_item_deque() {
    let mut data = deque_of(&[1]);
    assert_eq!(data.pop_right(), Some(1));
    assert_eq!(data.len(), 0);
    assert_eq!(values_of(&data), Vec::<i64>::new());
}

#[test]
fn create_empty_deque() {
    let data: Deque<i64> = deque_of(&[]);
    assert_eq!(data.first(), None);
    assert_eq!(data.last(), None);
    assert_eq!(data.len(), 0);
}

#[test]
fn create_deque_1() {
    let data = deque_of(&[9]);
    assert_eq!(data.first().unwrap().value, 9);
    assert_eq!(data.last().unwrap().value, 9);
    assert_eq!(data.len(), 1);
}

#[test]
fn create_deque_2() {
    let data = deque_of(&[1, 2, 4]);
    assert_eq!(data.first().unwrap().value, 1);
    assert_eq!(data.last().unwrap().value, 4);
    assert_eq!(data.len(), 3);
}

#[test]
fn pops_from_both_ends() {
    let mut data = deque_of(&[1, 2, 3]);
    data.push_left(0);
    assert_eq!(values_of(&data), vec![0, 1, 2, 3]);
    assert_eq!(data.pop_left(), Some(0));
    assert_eq!(data.pop_right(), Some(3));
    assert_eq!(values_of(&data), vec![1, 2]);
    assert_eq!(data.pop_left(), Some(1));
    assert_eq!(data.pop_left(), Some(2));
    assert_eq!(data.pop_left(), None);
    assert_eq!(data.pop_right(), None);
    data.push_right(7);
    assert_eq!(values_of(&data), vec![7]);
}

#[test]
fn neighbours_are_linked() {
    let data = deque_of(&[1, 2]);
    let first = data.first().unwrap();
    let last = data.last().unwrap();
    assert!(first.right().is_some());
    assert!(last.left().is_some());
    assert_eq!(first.left(), None);
    assert_eq!(last.right(), None);
    assert!(!first.equal_values(last));
    assert!(first.equal_values(data.first().unwrap()));
}

#[test]
fn cloning_an_empty_deque() {
    let a = deque_of(&[1, 2, 3]);
    let b = a.clone();

    assert_eq!(a.first(), b.first());
    assert_eq!(a.last(), b.last());
}

#[test]
fn empty_deques_are_equal() {
    let x1: Deque<i64> = deque_of(&[]);
    let x2: Deque<i64> = deque_of(&[]);

    assert!(x1 == x2);
}

#[test]
fn cloned_deques_are_equal() {
    let x1: Deque<i64> = deque_of(&[]);
    let x2: Deque<i64> = x1.clone();

    assert!(x1 == x2);
}

#[test]
fn equal_deques() {
    let x1: Deque<i64> = deque_of(&[1, 2, 3]);
    let x2: Deque<i64> = deque_of(&[1, 2, 3]);

    assert!(x1 == x2);
}

#[test]
fn different_deques_1() {
    let x1: Deque<i64> = deque_of(&[1, 2, 3]);
    let x2: Deque<i64> = deque_of(&[3, 2, 1]);

    assert!(x1 != x2);
}

#[test]
fn different_deques_2() {
    let x1: Deque<i64> = deque_of(&[1, 2, 3]);
    let x2: Deque<i64> = deque_of(&[1, 2]);

    assert!(x1 != x2);
}

#[test]
fn different_deques_3() {
    let x1: Deque<i64> = deque_of(&[1, 2, 3]);
    let x2: Deque<i64> = deque_of(&[1, 2, 3, 4]);

    assert!(x1 != x2);
}

#[test]
fn equality_ignores_how_the_deque_was_built() {
    let mut x1: Deque<i64> = Deque::create();
    x1.push_left(2);
    x1.push_left(1);
    x1.push_right(3);
    let mut x2: Deque<i64> = deque_of(&[0, 1, 2, 3]);
    assert!(x1 != x2);
    x2.pop_left();
    assert!(x1 == x2);
    let x3 = x2.clone();
    assert_eq!(values_of(&x3), vec![1, 2, 3]);
}
