use xornet::render::layout;
use xornet::Mat;

fn plus(a: f64, b: f64) -> f64 {
    a + b
}

fn times(a: f64, b: f64) -> f64 {
    a * b
}

fn sigmoidf(x: f64) -> f64 {
    1.0 / (1.0 + (x * -1.0).exp())
}

fn show(x: f64) -> String {
    format!("{:?}", x)
}

fn cells(m: &Mat<f64>) -> Vec<f64> {
    let mut out = Vec::new();
    for r in 0..m.rows() {
        for c in 0..m.cols() {
            out.push(*m.get(r, c).unwrap());
        }
    }
    out
}

#[test]
fn new_keeps_shape_and_row_major_order() {
    let data = vec![1.0, 2.0, 3.0, 4.0, 5.0, 6.0];
    let m = Mat::new(2, 3, data.clone());
    assert_eq!(m.rows(), 2);
    assert_eq!(m.cols(), 3);
    for r in 0..2 {
        for c in 0..3 {
            assert_eq!(m.get(r, c), Some(&data[r * 3 + c]));
        }
    }
    assert_eq!(m.get(1, 0), Some(&4.0));
    assert_eq!(m.get(0, 2), Some(&3.0));
}

#[test]
fn new_accepts_empty_shapes() {
    let none: Mat<f64> = Mat::new(0, 0, vec![]);
    assert_eq!(none.rows(), 0);
    assert_eq!(none.cols(), 0);
    assert_eq!(none.get(0, 0), None);
    let no_cols: Mat<f64> = Mat::new(3, 0, vec![]);
    assert_eq!(no_cols.rows(), 3);
    assert_eq!(no_cols.cols(), 0);
    assert_eq!(no_cols.get(0, 0), None);
    let no_rows: Mat<f64> = Mat::new(0, 3, vec![]);
    assert_eq!(no_rows.get(0, 0), None);
}

#[test]
fn get_outside_the_shape_is_none() {
    let m = Mat::new(2, 3, vec![1.0, 2.0, 3.0, 4.0, 5.0, 6.0]);
    assert_eq!(m.get(2, 0), None);
    assert_eq!(m.get(0, 3), None);
    assert_eq!(m.get(2, 3), None);
    assert_eq!(m.get(usize::MAX, 0), None);
    assert_eq!(m.get(0, usize::MAX), None);
    assert_eq!(m.get(usize::MAX, usize::MAX), None);
    // Offset 3 exists in the buffer, but column 3 does not exist in the shape.
    assert_eq!(m.get(0, 3), None);
}

#[test]
fn set_inside_the_shape_writes_one_cell() {
    let mut m = Mat::new(2, 2, vec![1.0, 2.0, 3.0, 4.0]);
    assert!(m.set(1, 0, 9.5));
    assert_eq!(cells(&m), vec![1.0, 2.0, 9.5, 4.0]);
    assert!(m.set(0, 1, -1.0));
    assert_eq!(cells(&m), vec![1.0, -1.0, 9.5, 4.0]);
    assert_eq!(m.rows(), 2);
    assert_eq!(m.cols(), 2);
}

#[test]
fn set_outside_the_shape_fails_and_changes_nothing() {
    let mut m = Mat::new(2, 2, vec![1.0, 2.0, 3.0, 4.0]);
    assert!(!m.set(2, 0, 9.0));
    assert!(!m.set(0, 2, 9.0));
    assert!(!m.set(usize::MAX, usize::MAX, 9.0));
    assert_eq!(cells(&m), vec![1.0, 2.0, 3.0, 4.0]);
    assert_eq!(m.rows(), 2);
    assert_eq!(m.cols(), 2);
}

#[test]
fn add_sums_place_by_place() {
    let a = Mat::new(2, 3, vec![1.0, 2.0, 3.0, 4.0, 5.0, 6.0]);
    let b = Mat::new(2, 3, vec![10.0, 20.0, 30.0, 40.0, 50.0, 60.5]);
    let sum = a.add(&b, plus).unwrap();
    assert_eq!(sum.rows(), 2);
    assert_eq!(sum.cols(), 3);
    assert_eq!(cells(&sum), vec![11.0, 22.0, 33.0, 44.0, 55.0, 66.5]);
    for r in 0..2 {
        for c in 0..3 {
            assert_eq!(*sum.get(r, c).unwrap(), *a.get(r, c).unwrap() + *b.get(r, c).unwrap());
        }
    }
    // The operands are as they were.
    assert_eq!(cells(&a), vec![1.0, 2.0, 3.0, 4.0, 5.0, 6.0]);
    assert_eq!(cells(&b), vec![10.0, 20.0, 30.0, 40.0, 50.0, 60.5]);
}

#[test]
fn add_hands_the_left_operand_to_the_left() {
    let a: Mat<i64> = Mat::new(1, 2, vec![7, 9]);
    let b: Mat<i64> = Mat::new(1, 2, vec![2, 4]);
    let out = a.add(&b, |x: i64, y: i64| x * 10 + y).unwrap();
    assert_eq!(out.get(0, 0), Some(&72));
    assert_eq!(out.get(0, 1), Some(&94));
}

#[test]
fn add_of_different_shapes_is_none() {
    let a = Mat::new(2, 3, vec![1.0, 2.0, 3.0, 4.0, 5.0, 6.0]);
    let b = Mat::new(3, 2, vec![1.0, 2.0, 3.0, 4.0, 5.0, 6.0]);
    assert!(a.add(&b, plus).is_none());
    let c = Mat::new(2, 2, vec![1.0, 2.0, 3.0, 4.0]);
    assert!(a.add(&c, plus).is_none());
    let d = Mat::new(1, 3, vec![1.0, 2.0, 3.0]);
    assert!(a.add(&d, plus).is_none());
}

#[test]
fn add_of_empty_matrices_is_empty() {
    let a: Mat<f64> = Mat::new(0, 4, vec![]);
    let b: Mat<f64> = Mat::new(0, 4, vec![]);
    let sum = a.add(&b, plus).unwrap();
    assert_eq!(sum.rows(), 0);
    assert_eq!(sum.cols(), 4);
}

#[test]
fn dot_two_by_two() {
    let a = Mat::new(2, 2, vec![1.0, 2.0, 3.0, 4.0]);
    let b = Mat::new(2, 2, vec![5.0, 6.0, 7.0, 8.0]);
    let p = a.dot(&b, 0.0, times, plus).unwrap();
    assert_eq!(p.rows(), 2);
    assert_eq!(p.cols(), 2);
    assert_eq!(cells(&p), vec![19.0, 22.0, 43.0, 50.0]);
    let q = b.dot(&a, 0.0, times, plus).unwrap();
    assert_eq!(cells(&q), vec![23.0, 34.0, 31.0, 46.0]);
}

#[test]
fn dot_with_the_identity_gives_the_matrix_back() {
    let a = Mat::new(2, 3, vec![1.5, -2.0, 3.0, 4.0, 5.25, -6.0]);
    let left = Mat::new(2, 2, vec![1.0, 0.0, 0.0, 1.0]);
    let right = Mat::new(3, 3, vec![1.0, 0.0, 0.0, 0.0, 1.0, 0.0, 0.0, 0.0, 1.0]);
    let p = left.dot(&a, 0.0, times, plus).unwrap();
    assert_eq!(p.rows(), 2);
    assert_eq!(p.cols(), 3);
    assert_eq!(cells(&p), cells(&a));
    let q = a.dot(&right, 0.0, times, plus).unwrap();
    assert_eq!(q.rows(), 2);
    assert_eq!(q.cols(), 3);
    assert_eq!(cells(&q), cells(&a));
}

#[test]
fn dot_has_the_rows_of_the_left_and_the_columns_of_the_right() {
    let a = Mat::new(2, 3, vec![1.0, 2.0, 3.0, 4.0, 5.0, 6.0]);
    let b = Mat::new(3, 4, vec![1.0, 2.0, 3.0, 4.0, 5.0, 6.0, 7.0, 8.0, 9.0, 10.0, 11.0, 12.0]);
    let p = a.dot(&b, 0.0, times, plus).unwrap();
    assert_eq!(p.rows(), 2);
    assert_eq!(p.cols(), 4);
    assert_eq!(cells(&p), vec![38.0, 44.0, 50.0, 56.0, 83.0, 98.0, 113.0, 128.0]);
    for i in 0..2 {
        for j in 0..4 {
            let mut sum = 0.0;
            for k in 0..3 {
                sum = sum + *a.get(i, k).unwrap() * *b.get(k, j).unwrap();
            }
            assert_eq!(*p.get(i, j).unwrap(), sum);
        }
    }
}

#[test]
fn dot_of_unfitting_shapes_is_none() {
    let a = Mat::new(2, 3, vec![1.0, 2.0, 3.0, 4.0, 5.0, 6.0]);
    let b = Mat::new(2, 3, vec![1.0, 2.0, 3.0, 4.0, 5.0, 6.0]);
    assert!(a.dot(&b, 0.0, times, plus).is_none());
    let c = Mat::new(1, 2, vec![1.0, 2.0]);
    assert!(a.dot(&c, 0.0, times, plus).is_none());
}

#[test]
fn dot_adds_the_terms_in_increasing_order() {
    let a: Mat<i64> = Mat::new(1, 3, vec![1, 2, 3]);
    let b: Mat<i64> = Mat::new(3, 1, vec![1, 1, 1]);
    let p = a
        .dot(&b, 0, |x: i64, y: i64| x * y, |acc: i64, term: i64| acc * 10 + term)
        .unwrap();
    assert_eq!(p.rows(), 1);
    assert_eq!(p.cols(), 1);
    assert_eq!(p.get(0, 0), Some(&123));
}

#[test]
fn dot_starts_each_element_at_zero_and_multiplies_left_by_right() {
    let a: Mat<i64> = Mat::new(1, 2, vec![2, 3]);
    let b: Mat<i64> = Mat::new(2, 2, vec![5, 7, 11, 13]);
    let p = a
        .dot(&b, 1000, |x: i64, y: i64| x * 100 + y, |acc: i64, term: i64| acc + term)
        .unwrap();
    // (0,0): 1000 + (2*100 + 5) + (3*100 + 11); (0,1): 1000 + (2*100 + 7) + (3*100 + 13)
    assert_eq!(p.get(0, 0), Some(&1516));
    assert_eq!(p.get(0, 1), Some(&1520));
}

#[test]
fn dot_over_no_inner_index_is_all_zero() {
    let a: Mat<f64> = Mat::new(2, 0, vec![]);
    let b: Mat<f64> = Mat::new(0, 3, vec![]);
    let p = a.dot(&b, 0.0, times, plus).unwrap();
    assert_eq!(p.rows(), 2);
    assert_eq!(p.cols(), 3);
    assert_eq!(cells(&p), vec![0.0; 6]);
}

#[test]
fn dot_float_sum_goes_left_to_right() {
    let a = Mat::new(1, 3, vec![1.0e16, 1.0, -1.0e16]);
    let b = Mat::new(3, 1, vec![1.0, 1.0, 1.0]);
    let p = a.dot(&b, 0.0, times, plus).unwrap();
    // ((0 + 1e16) + 1) - 1e16: the 1 is lost when it is added to 1e16.
    assert_eq!(*p.get(0, 0).unwrap(), ((0.0 + 1.0e16) + 1.0) + -1.0e16);
    assert_eq!(*p.get(0, 0).unwrap(), 0.0);
}

#[test]
fn sigmoid_of_zero_is_one_half() {
    let mut zero = Mat::new(2, 3, vec![0.0; 6]);
    let out = zero.sigmoid(sigmoidf).unwrap();
    assert_eq!(out.rows(), 2);
    assert_eq!(out.cols(), 3);
    assert_eq!(cells(&out), vec![0.5; 6]);
}

#[test]
fn sigmoid_keeps_the_shape_and_lies_between_zero_and_one() {
    let data = vec![-30.0, -2.5, -1.0, 0.25, 1.0, 3.0, 10.0, 30.0];
    let mut m = Mat::new(4, 2, data.clone());
    let out = m.sigmoid(sigmoidf).unwrap();
    assert_eq!(out.rows(), 4);
    assert_eq!(out.cols(), 2);
    for r in 0..4 {
        for c in 0..2 {
            let y = *out.get(r, c).unwrap();
            assert!(0.0 < y && y < 1.0);
            assert_eq!(y, 1.0 / (1.0 + (-data[r * 2 + c]).exp()));
        }
    }
    assert_eq!(*out.get(2, 0).unwrap(), 1.0 / (1.0 + (-1.0f64).exp()));
    // The matrix itself is as it was.
    assert_eq!(cells(&m), data);
}

#[test]
fn sigmoid_of_far_values_meets_the_ends() {
    let mut m = Mat::new(1, 2, vec![-800.0, 800.0]);
    let out = m.sigmoid(sigmoidf).unwrap();
    assert_eq!(*out.get(0, 0).unwrap(), 0.0);
    assert_eq!(*out.get(0, 1).unwrap(), 1.0);
}

#[test]
fn sigmoid_of_an_empty_matrix_is_empty() {
    let mut m: Mat<f64> = Mat::new(0, 5, vec![]);
    let out = m.sigmoid(sigmoidf).unwrap();
    assert_eq!(out.rows(), 0);
    assert_eq!(out.cols(), 5);
}

#[test]
fn render_writes_one_bracketed_line_for_each_row() {
    let m = Mat::new(2, 2, vec![1.0, 2.0, 3.0, 4.5]);
    assert_eq!(m.render(show), "[1.0\t2.0]\n[3.0\t4.5]\n");
    let row = Mat::new(1, 3, vec![0.5, -1.0, 1.0e-7]);
    assert_eq!(row.render(show), "[0.5\t-1.0\t1e-7]\n");
    let column = Mat::new(3, 1, vec![1.0, 2.0, 3.0]);
    assert_eq!(column.render(show), "[1.0]\n[2.0]\n[3.0]\n");
}

#[test]
fn render_of_empty_shapes() {
    let none: Mat<f64> = Mat::new(0, 3, vec![]);
    assert_eq!(none.render(show), "");
    let no_cols: Mat<f64> = Mat::new(2, 0, vec![]);
    assert_eq!(no_cols.render(show), "[]\n[]\n");
}

#[test]
fn layout_joins_the_texts_of_a_row_with_tabs() {
    let texts = vec![
        String::from("a"),
        String::from("bc"),
        String::from(""),
        String::from("d"),
        String::from("e"),
        String::from("fgh"),
    ];
    assert_eq!(layout(2, 3, &texts), "[a\tbc\t]\n[d\te\tfgh]\n");
    assert_eq!(layout(3, 2, &texts), "[a\tbc]\n[\td]\n[e\tfgh]\n");
    assert_eq!(layout(1, 6, &texts), "[a\tbc\t\td\te\tfgh]\n");
    assert_eq!(layout(0, 0, &Vec::new()), "");
}
