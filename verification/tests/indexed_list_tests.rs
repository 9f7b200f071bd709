use hcp_rs::indexed_list::IndexedList;

#[test]
fn from_iter() {
    let mut v: IndexedList<i32> = IndexedList::new(3);
    v.push_row(&vec![1, 2, 3]);
    v.push_row(&vec![4, 5, 6]);
    assert_eq!(*v.get(0, 1), 2);
    assert_eq!(*v.get(1, 2), 6);
}

#[test]
fn push() {
    let mut v = IndexedList::new(3);
    v.push_row(&vec![1, 2, 3]);
    v.push_row(&vec![4, 5, 6]);
    assert_eq!(*v.get(0, 1), 2);
    assert_eq!(*v.get(1, 2), 6);
}

#[test]
fn insert() {
    let mut v: IndexedList<i32> = IndexedList::new(3);
    v.push_row(&vec![1, 2, 3]);
    v.push_row(&vec![4, 5, 6]);
    v.insert_row(1, &vec![8, 8, 8]);
    assert_eq!(*v.get(1, 2), 8);
}

#[test]
fn remove() {
    let mut v: IndexedList<i32> = IndexedList::new(3);
    v.push_row(&vec![1, 2, 3]);
    v.push_row(&vec![4, 5, 6]);
    v.remove_row(0);
    assert_eq!(*v.get(0, 1), 5);
}

#[test]
fn set_overwrites_one_slot() {
    let mut v: IndexedList<u32> = IndexedList::new(2);
    v.push_row(&vec![10, 20]);
    v.push_row(&vec![30, 40]);
    v.set(1, 0, 99);
    assert_eq!(*v.get(0, 0), 10);
    assert_eq!(*v.get(0, 1), 20);
    assert_eq!(*v.get(1, 0), 99);
    assert_eq!(*v.get(1, 1), 40);
}

#[test]
fn flat_is_row_major() {
    let mut v: IndexedList<u32> = IndexedList::new(2);
    v.push_row(&vec![1, 2]);
    v.push_row(&vec![3, 4]);
    assert_eq!(v.flat(), &vec![1, 2, 3, 4]);
    assert_eq!(v.num_rows(), 2);
    assert_eq!(v.cols(), 2);
}
