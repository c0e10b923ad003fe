use vertexrs::{ColRef, Node};

#[test]
fn node_row_single_dep() {
    let price = Node::from_data("price", vec![10.0_f64, 20.0, 30.0]);
    let data = price.row(|x| x * 0.2);
    assert_eq!(data, vec![2.0, 4.0, 6.0]);
}

#[test]
fn node_col_sort() {
    let price = Node::from_data("price", vec![3.0_f64, 1.0, 2.0]);
    let sorted = price.col(|c| c.sort());
    assert_eq!(sorted, vec![1.0, 2.0, 3.0]);
}

#[test]
fn node_col_filter() {
    let price = Node::from_data("price", vec![1.0_f64, -2.0, 3.0, -4.0]);
    let positive = price.col(|c| c.filter(|x| *x > 0.0));
    assert_eq!(positive, vec![1.0, 3.0]);
}

#[test]
fn node_metadata_and_values() {
    let n = Node::new_with_deps("total", &["price", "qty"], vec![1_i64, 2, 3]);
    assert_eq!(n.name, "total");
    assert_eq!(n.deps, &["price", "qty"]);
    assert_eq!(n.values(), &[1, 2, 3]);
    assert_eq!(n.len(), 3);
    assert!(!n.is_empty());

    let s = Node::<u8>::from_data("empty", vec![]);
    assert!(s.deps.is_empty());
    assert!(s.is_empty());
    assert_eq!(s.len(), 0);
}

#[test]
fn node_row_keeps_order_and_length() {
    let n = Node::from_data("n", vec![5_i32, -1, 7, 0]);
    assert_eq!(n.row(|x| x > 0), vec![true, false, true, false]);
    assert_eq!(n.row(|x| x * 10), vec![50, -10, 70, 0]);
}

#[test]
fn col_ref_views_node_data() {
    let n = Node::from_data("n", vec![4_u32, 5]);
    let c: ColRef<'_, u32> = n.col_ref();
    assert_eq!(c.data, &[4, 5]);
    assert_eq!(n.col(|c| c.data.len()), 2);
}

#[test]
fn col_sort_integers_with_duplicates() {
    let data = [5_i32, -3, 5, 0, -3, 9, 1];
    let c = ColRef { data: &data };
    assert_eq!(c.sort(), vec![-3, -3, 0, 1, 5, 5, 9]);
    let empty: [i32; 0] = [];
    assert!(ColRef { data: &empty }.sort().is_empty());
}

#[test]
fn col_sort_already_sorted_and_reversed() {
    let up = [1_u64, 2, 3, 4];
    let down = [4_u64, 3, 2, 1];
    assert_eq!(ColRef { data: &up }.sort(), vec![1, 2, 3, 4]);
    assert_eq!(ColRef { data: &down }.sort(), vec![1, 2, 3, 4]);
}

#[test]
fn col_sort_puts_nan_first() {
    let data = [2.0_f64, f64::NAN, 1.0, f64::NAN];
    let out = ColRef { data: &data }.sort();
    assert_eq!(out.len(), 4);
    assert!(out[0].is_nan() && out[1].is_nan());
    assert_eq!(&out[2..], &[1.0, 2.0]);

    let pair = [f64::NAN, 1.0];
    let out = ColRef { data: &pair }.sort();
    assert!(out[0].is_nan());
    assert_eq!(out[1], 1.0);
}

#[test]
fn col_filter_keeps_order_and_handles_none_and_all() {
    let data = [3_i32, 8, 1, 8, 2];
    let c = ColRef { data: &data };
    assert_eq!(c.filter(|x| *x == 8), vec![8, 8]);
    assert_eq!(c.filter(|_| true), vec![3, 8, 1, 8, 2]);
    assert!(c.filter(|_| false).is_empty());
    assert_eq!(c.filter(|x| x % 2 == 1), vec![3, 1]);
}

#[test]
fn col_ref_arithmetic_between_columns() {
    let a = [1_i64, 2, 3];
    let b = [10_i64, 20, 30];
    let (x, y) = (ColRef { data: &a }, ColRef { data: &b });
    assert_eq!(x + y, vec![11, 22, 33]);
    assert_eq!(y - x, vec![9, 18, 27]);
    assert_eq!(x * y, vec![10, 40, 90]);
    assert_eq!(y / x, vec![10, 10, 10]);
    assert_eq!(y % ColRef { data: &[3_i64, 7, 4] }, vec![1, 6, 2]);
}

#[test]
fn col_ref_arithmetic_stops_at_shorter_column() {
    let a = [1.5_f64, 2.5, 3.5];
    let b = [1.0_f64];
    assert_eq!(ColRef { data: &a } + ColRef { data: &b }, vec![2.5]);
    assert!((ColRef { data: &b } * ColRef { data: &[] as &[f64] }).is_empty());
}

#[test]
fn col_ref_arithmetic_with_scalar() {
    let a = [2_u32, 4, 6];
    let c = ColRef { data: &a };
    assert_eq!(c + 1, vec![3, 5, 7]);
    assert_eq!(c - 2, vec![0, 2, 4]);
    assert_eq!(c * 3, vec![6, 12, 18]);
    assert_eq!(c / 2, vec![1, 2, 3]);
    assert_eq!(c % 4, vec![2, 0, 2]);
}
