use threshold_split::transform::{f, has_square, map_chunk};

#[test]
fn f_squares() {
    assert_eq!(f(&0), 0);
    assert_eq!(f(&1), 1);
    assert_eq!(f(&3), 9);
    assert_eq!(f(&-4), 16);
    assert_eq!(f(&11), 121);
}

#[test]
fn f_at_the_largest_arguments() {
    assert_eq!(f(&46340), 2147395600);
    assert_eq!(f(&-46340), 2147395600);
}

#[test]
fn has_square_tells_which_squares_fit() {
    assert!(has_square(&0));
    assert!(has_square(&46340));
    assert!(has_square(&-46340));
    assert!(!has_square(&46341));
    assert!(!has_square(&-46341));
    assert!(!has_square(&i32::MAX));
    assert!(!has_square(&i32::MIN));
}

#[test]
fn map_chunk_applies_the_transform_in_order() {
    assert_eq!(map_chunk(&[6, 7, 8, 9, 10], &f), vec![36, 49, 64, 81, 100]);
    assert_eq!(map_chunk(&vec![-2, 2], &f), vec![4, 4]);
}

#[test]
fn map_chunk_of_nothing_is_empty() {
    let empty: Vec<i32> = Vec::new();
    assert_eq!(map_chunk(&empty, &f), Vec::<i32>::new());
}

#[test]
fn map_chunk_takes_any_transform() {
    let length = |s: &&str| s.len();
    assert_eq!(map_chunk(&["a", "bcd", ""], &length), vec![1, 3, 0]);
}
