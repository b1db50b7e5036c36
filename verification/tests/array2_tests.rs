use rpeg::array2::Array2Error;
use rpeg::Array2;

#[test]
fn create_and_access() {
    let a = Array2::from_row_major(3, 2, vec![1, 2, 3, 4, 5, 6]).unwrap();
    assert_eq!(*a.get(2, 0).unwrap(), 3);
}

#[test]
fn modify_and_access() {
    let mut a = Array2::from_row_major(3, 2, vec![1, 2, 3, 4, 5, 6]).unwrap();
    let i = a.get_mut(2, 0).unwrap();
    *i = 99;
    assert_eq!(*a.get(2, 0).unwrap(), 99);
}

#[test]
fn access_out_of_bounds() {
    let a = Array2::from_row_major(3, 2, vec![1, 2, 3, 4, 5, 6]).unwrap();
    let v = a.get(3, 0);
    assert_eq!(v, None);
}

#[test]
fn access_in_bounds() {
    let a = Array2::from_row_major(3, 2, vec![1, 2, 3, 4, 5, 6]).unwrap();
    let v = a.get(2, 0);
    assert_eq!(v, Some(&3));
}

#[test]
fn modify_out_of_bounds() {
    let mut a = Array2::from_row_major(3, 2, vec![1, 2, 3, 4, 5, 6]).unwrap();
    let v = a.get_mut(3, 0);
    assert_eq!(v, None);
}

#[test]
fn sum_via_fold() {
    let a = Array2::from_row_major(3, 2, vec![1, 2, 3, 4, 5, 6]).unwrap();
    let v: i32 = a.iter_row_major().into_iter().fold(0_i32, |acc, (_, _, x)| acc + x);
    assert_eq!(v, 21);
}

#[test]
fn iter_row_major() {
    let a = Array2::from_row_major(3, 2, vec![1, 2, 3, 4, 5, 6]).unwrap();
    let mut b = a.iter_row_major().into_iter();

    assert_eq!(b.next(), Some((0, 0, &1)));
    assert_eq!(b.next(), Some((1, 0, &2)));
    assert_eq!(b.next(), Some((2, 0, &3)));

    assert_eq!(b.next(), Some((0, 1, &4)));
    assert_eq!(b.next(), Some((1, 1, &5)));
    assert_eq!(b.next(), Some((2, 1, &6)));

    assert_eq!(b.next(), None);
}

#[test]
fn iter_col_major() {
    let a = Array2::from_row_major(3, 2, vec![1, 2, 3, 4, 5, 6]).unwrap();
    let mut b = a.iter_col_major().into_iter();

    assert_eq!(b.next(), Some((0, 0, &1)));
    assert_eq!(b.next(), Some((0, 1, &4)));

    assert_eq!(b.next(), Some((1, 0, &2)));
    assert_eq!(b.next(), Some((1, 1, &5)));

    assert_eq!(b.next(), Some((2, 0, &3)));
    assert_eq!(b.next(), Some((2, 1, &6)));

    assert_eq!(b.next(), None);
}

#[test]
fn wrong_length_is_refused() {
    assert_eq!(
        Array2::from_row_major(3, 2, vec![1, 2, 3, 4, 5]).err(),
        Some(Array2Error::WrongLength)
    );
    assert_eq!(
        Array2::from_row_major(usize::MAX, 2, vec![1u8]).err(),
        Some(Array2Error::WrongLength)
    );
}

#[test]
fn empty_array() {
    let a: Array2<u8> = Array2::from_row_major(0, 5, vec![]).unwrap();
    assert_eq!(a.width(), 0);
    assert_eq!(a.height(), 5);
    assert_eq!(a.get(0, 0), None);
    assert!(a.iter_row_major().is_empty());
    assert!(a.iter_col_major().is_empty());
}

#[test]
fn write_then_read_keeps_other_cells() {
    let mut a = Array2::from_row_major(2, 2, vec![10, 20, 30, 40]).unwrap();
    *a.get_mut(0, 1).unwrap() = 7;
    assert_eq!(a.get(0, 1), Some(&7));
    assert_eq!(a.get(0, 0), Some(&10));
    assert_eq!(a.get(1, 0), Some(&20));
    assert_eq!(a.get(1, 1), Some(&40));
    assert_eq!(a.width(), 2);
    assert_eq!(a.height(), 2);
}

#[test]
fn orders_are_transposes() {
    let a = Array2::from_row_major(3, 2, vec![1, 2, 3, 4, 5, 6]).unwrap();
    let rows = a.iter_row_major();
    let cols = a.iter_col_major();
    for k in 0..6 {
        let i = (k % 2) * 3 + k / 2;
        assert_eq!(cols[k], rows[i]);
    }
}
