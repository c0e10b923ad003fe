use vertexrs::frame::{Frame, FrameError};

#[test]
fn frame_get_finds_column_by_name() {
    let mut f: Frame<Vec<f64>> = Frame::new();
    assert_eq!(f.push_column("price".to_string(), 2, vec![10.0, 20.0]), Ok(()));
    assert_eq!(f.push_column("quantity".to_string(), 2, vec![2.0, 5.0]), Ok(()));
    assert_eq!(f.get("price"), Some(&vec![10.0, 20.0]));
    assert_eq!(f.get("quantity"), Some(&vec![2.0, 5.0]));
    assert_eq!(f.position("quantity"), Some(1));
}

#[test]
fn frame_get_unknown_name_is_none() {
    let mut f: Frame<u8> = Frame::new();
    assert_eq!(f.get("x"), None);
    f.push_column("x".to_string(), 3, 7).unwrap();
    assert_eq!(f.get("y"), None);
    assert_eq!(f.position("y"), None);
}

#[test]
fn frame_row_count_and_column_count() {
    let mut f: Frame<()> = Frame::new();
    f.push_column("a".to_string(), 3, ()).unwrap();
    f.push_column("b".to_string(), 3, ()).unwrap();
    assert_eq!(f.len(), 3);
    assert_eq!(f.column_count(), 2);
    assert!(!f.is_empty());
}

#[test]
fn frame_new_has_no_columns() {
    let f: Frame<()> = Frame::new();
    assert!(f.is_empty());
    assert_eq!(f.len(), 0);
    assert_eq!(f.column_count(), 0);
    assert!(f.column_names().is_empty());
}

#[test]
fn frame_column_names_in_insertion_order() {
    let mut f: Frame<i32> = Frame::new();
    f.push_column("z".to_string(), 1, 0).unwrap();
    f.push_column("a".to_string(), 1, 1).unwrap();
    f.push_column("m".to_string(), 1, 2).unwrap();
    assert_eq!(f.column_names(), vec!["z", "a", "m"]);
    assert_eq!(f.column_at(1), ("a", 1, &1));
}

#[test]
fn frame_refuses_duplicate_name() {
    let mut f: Frame<i32> = Frame::new();
    f.push_column("x".to_string(), 2, 1).unwrap();
    assert_eq!(f.push_column("x".to_string(), 2, 2), Err(FrameError::DuplicateColumn));
    assert_eq!(f.push_column("x".to_string(), 9, 2), Err(FrameError::DuplicateColumn));
    assert_eq!(f.column_count(), 1);
    assert_eq!(f.get("x"), Some(&1));
}

#[test]
fn frame_refuses_length_mismatch() {
    let mut f: Frame<i32> = Frame::new();
    f.push_column("x".to_string(), 2, 1).unwrap();
    assert_eq!(
        f.push_column("y".to_string(), 3, 2),
        Err(FrameError::LengthMismatch { expected: 2, found: 3 })
    );
    assert_eq!(f.column_count(), 1);
    assert_eq!(f.get("y"), None);
}
