use neuralnet::matrix::Matrix;
use neuralnet::matrix::MatrixError;

fn plus(a: f64, b: f64) -> f64 {
    a + b
}

fn minus(a: f64, b: f64) -> f64 {
    a - b
}

fn times(a: f64, b: f64) -> f64 {
    a * b
}

fn grid(m: &Matrix<f64>) -> Vec<Vec<f64>> {
    let mut rows: Vec<Vec<f64>> = Vec::new();
    let mut i: usize = 0;
    while i < m.num_rows() {
        let mut row: Vec<f64> = Vec::new();
        let mut j: usize = 0;
        while j < m.num_cols() {
            row.push(m.get(i, j).unwrap());
            j += 1;
        }
        rows.push(row);
        i += 1;
    }
    rows
}

#[test]
fn multiply_has_product_shape() {
    let a = Matrix::from(vec![vec![1.0, 2.0, 3.0], vec![4.0, 5.0, 6.0]]).unwrap();
    let b = Matrix::from(vec![vec![7.0, 8.0], vec![9.0, 10.0], vec![11.0, 12.0]]).unwrap();
    let p = a.multiply(&b, &plus, &times, 0.0).unwrap();
    assert_eq!(p.num_rows(), 2);
    assert_eq!(p.num_cols(), 2);
    assert_eq!(grid(&p), vec![vec![58.0, 64.0], vec![139.0, 154.0]]);
}

#[test]
fn multiply_one_by_one_is_scalar_product() {
    let a = Matrix::from(vec![vec![3.0]]).unwrap();
    let b = Matrix::from(vec![vec![-4.5]]).unwrap();
    let p = a.multiply(&b, &plus, &times, 0.0).unwrap();
    assert_eq!(p.num_rows(), 1);
    assert_eq!(p.num_cols(), 1);
    assert_eq!(p.get(0, 0).unwrap(), -13.5);
}

#[test]
fn transpose_round_trip() {
    let a = Matrix::from(vec![vec![1.0, 2.0, 3.0], vec![4.0, 5.0, 6.0]]).unwrap();
    let t = a.transpose();
    assert_eq!(t.num_rows(), 3);
    assert_eq!(t.num_cols(), 2);
    assert_eq!(t.get(2, 1).unwrap(), 6.0);
    let tt = t.transpose();
    assert_eq!(grid(&tt), grid(&a));
}

#[test]
fn sum_commutes() {
    let a = Matrix::from(vec![vec![1.0, -2.0], vec![0.5, 8.0]]).unwrap();
    let b = Matrix::from(vec![vec![4.0, 0.25], vec![-1.5, 2.0]]).unwrap();
    let ab = a.sum(&b, &plus).unwrap();
    let ba = b.sum(&a, &plus).unwrap();
    assert_eq!(grid(&ab), grid(&ba));
    assert_eq!(ab.get(0, 0).unwrap(), 5.0);
}

#[test]
fn subtract_is_sum_of_negated() {
    let a = Matrix::from(vec![vec![1.0, -2.0], vec![0.5, 8.0]]).unwrap();
    let b = Matrix::from(vec![vec![4.0, 0.25], vec![-1.5, 2.0]]).unwrap();
    let d = a.subtract(&b, &minus).unwrap();
    let nb = b.map(&|x: f64| -x);
    let s = a.sum(&nb, &plus).unwrap();
    assert_eq!(grid(&d), grid(&s));
    assert_eq!(d.get(1, 0).unwrap(), 2.0);
}

#[test]
fn map_preserves_shape() {
    let a = Matrix::from(vec![vec![1.0, 2.0, 3.0], vec![4.0, 5.0, 6.0]]).unwrap();
    let m = a.map(&|x: f64| x * x + 1.0);
    assert_eq!(m.num_rows(), a.num_rows());
    assert_eq!(m.num_cols(), a.num_cols());
    assert_eq!(m.get(1, 2).unwrap(), 37.0);
}

#[test]
fn mismatched_shapes_are_rejected() {
    let one_by_one = Matrix::from(vec![vec![1.0]]).unwrap();
    let one_by_two = Matrix::from(vec![vec![1.0, 2.0]]).unwrap();
    let two_by_two = Matrix::from(vec![vec![1.0, 2.0], vec![3.0, 4.0]]).unwrap();
    let three_by_two =
        Matrix::from(vec![vec![1.0, 2.0], vec![3.0, 4.0], vec![5.0, 6.0]]).unwrap();

    assert_eq!(
        one_by_one.sum(&one_by_two, &plus).unwrap_err(),
        MatrixError::ShapeMismatch
    );
    assert_eq!(
        two_by_two.sum(&three_by_two, &plus).unwrap_err(),
        MatrixError::ShapeMismatch
    );
    assert_eq!(
        one_by_one.subtract(&one_by_two, &minus).unwrap_err(),
        MatrixError::ShapeMismatch
    );
    assert_eq!(
        two_by_two.subtract(&three_by_two, &minus).unwrap_err(),
        MatrixError::ShapeMismatch
    );
    assert_eq!(
        one_by_one.dot(&one_by_two, &times).unwrap_err(),
        MatrixError::ShapeMismatch
    );
    assert_eq!(
        two_by_two.dot(&three_by_two, &times).unwrap_err(),
        MatrixError::ShapeMismatch
    );
    assert_eq!(
        two_by_two
            .multiply(&three_by_two, &plus, &times, 0.0)
            .unwrap_err(),
        MatrixError::ShapeMismatch
    );
    assert_eq!(
        one_by_one
            .multiply(&two_by_two, &plus, &times, 0.0)
            .unwrap_err(),
        MatrixError::ShapeMismatch
    );
}

#[test]
fn conforming_shapes_are_accepted() {
    let two_by_three = Matrix::from(vec![vec![1.0, 2.0, 3.0], vec![4.0, 5.0, 6.0]]).unwrap();
    let three_by_one = Matrix::from(vec![vec![1.0], vec![0.0], vec![-1.0]]).unwrap();
    let p = two_by_three.multiply(&three_by_one, &plus, &times, 0.0).unwrap();
    assert_eq!(p.num_rows(), 2);
    assert_eq!(p.num_cols(), 1);
    assert_eq!(p.get(0, 0).unwrap(), -2.0);
    assert_eq!(p.get(1, 0).unwrap(), -2.0);
}

#[test]
fn dot_is_elementwise() {
    let a = Matrix::from(vec![vec![2.0, 3.0], vec![4.0, 5.0]]).unwrap();
    let b = Matrix::from(vec![vec![10.0, 100.0], vec![0.5, -1.0]]).unwrap();
    let d = a.dot(&b, &times).unwrap();
    assert_eq!(grid(&d), vec![vec![20.0, 300.0], vec![2.0, -5.0]]);
}

#[test]
fn ragged_rows_are_rejected() {
    let r = Matrix::from(vec![vec![1.0, 2.0], vec![3.0]]);
    assert_eq!(r.unwrap_err(), MatrixError::RaggedRows);
}

#[test]
fn empty_grids_are_rejected() {
    let empty: Vec<Vec<f64>> = Vec::new();
    assert_eq!(Matrix::from(empty).unwrap_err(), MatrixError::Empty);
    let empty_row: Vec<Vec<f64>> = vec![Vec::new()];
    assert_eq!(Matrix::from(empty_row).unwrap_err(), MatrixError::Empty);
}

#[test]
fn fill_sets_every_entry() {
    let m: Matrix<f64> = Matrix::fill(3, 2, 0.75);
    assert_eq!(m.num_rows(), 3);
    assert_eq!(m.num_cols(), 2);
    assert_eq!(grid(&m), vec![vec![0.75, 0.75], vec![0.75, 0.75], vec![0.75, 0.75]]);
}

#[test]
fn get_out_of_range_is_none() {
    let m = Matrix::from(vec![vec![1.0, 2.0]]).unwrap();
    assert_eq!(m.get(0, 2), None);
    assert_eq!(m.get(1, 0), None);
    assert_eq!(m.get(0, 1), Some(2.0));
}

#[test]
fn column_stacks_entries() {
    let c = Matrix::column(&vec![1.0, 2.0, 3.0]);
    assert_eq!(c.num_rows(), 3);
    assert_eq!(c.num_cols(), 1);
    assert_eq!(c.at(1, 0), 2.0);
}
