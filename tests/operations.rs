use simplex::{EnteringRule, Matrix, Outcome, Rational, Step, TableauError};

fn q(n: i32) -> Rational {
    Rational::from_int(n)
}

fn frac(n: i32, d: i32) -> Rational {
    Rational::new(n, d)
}

fn row(v: &[i32]) -> Vec<Rational> {
    v.iter().map(|&x| Rational::from_int(x)).collect()
}

#[test]
fn test_matrix_new() {
    let m = Matrix::new(2, 3, 0);
    assert_eq!(m.rows, 2);
    assert_eq!(m.cols, 3);
    assert_eq!(m.data, vec![Rational::zero(); 6]);
}

#[test]
fn test_elementary_operations() {
    let mut m = Matrix::new(0, 6, 0);
    m.add_line(row(&[1, 1, 1, 0, 0, 12])).unwrap();
    m.add_line(row(&[2, 1, 0, 1, 0, 16])).unwrap();
    m.add_line(row(&[-40, -30, 0, 0, 1, 0])).unwrap();
    m.set_entering_rule(EnteringRule::MostNegative);
    let n = m.find_most_negative_in_bottom_row();
    assert_eq!(n, Some((0, q(-40))));

    let p = m.find_pivot();
    assert_eq!(p, Step::Pivot(1, 0));

    m.pivot((1, 0)).unwrap();
    assert_eq!(m.get(1, 0), q(1));
    assert_eq!(m.get(0, 0), q(0));
    assert_eq!(m.get(2, 0), q(0));
}

#[test]
fn test_solve() {
    let mut m = Matrix::new(0, 6, 0);
    m.add_line(row(&[1, 1, 1, 0, 0, 12])).unwrap();
    m.add_line(row(&[2, 1, 0, 1, 0, 16])).unwrap();
    // objective function
    m.add_line(row(&[-40, -30, 0, 0, 1, 0])).unwrap();
    m.set_entering_rule(EnteringRule::MostNegative);
    assert_eq!(m.solve(), Ok(Outcome::Optimal));
    let solution = m.get_solution();
    assert_eq!(solution[0..2], vec![q(4), q(8)]);
}

#[test]
fn test_negative_coefficient() {
    // maximize p = x + 2y + 3z subject to
    // 7x + z <= 6, x + 2y <= 20, 3y + 4z <= 30
    let mut m = Matrix::new(0, 8, 2);
    m.add_line(row(&[7, 0, 1, 1, 0, 0, 0, 6])).unwrap();
    m.add_line(row(&[1, 2, 0, 0, 1, 0, 0, 20])).unwrap();
    m.add_line(row(&[0, 3, 4, 0, 0, 1, 0, 30])).unwrap();
    m.add_line(row(&[-1, -2, -3, 0, 0, 0, 1, 0])).unwrap();
    m.set_entering_rule(EnteringRule::MostNegative);
    assert_eq!(m.solve(), Ok(Outcome::Optimal));
    let solution = m.get_solution();
    assert_eq!(vec![q(0), q(2), q(6), q(0), q(16), q(0), q(22)], solution);
}

#[test]
fn test_artificial_variables_stage_1() {
    let mut m = Matrix::new(0, 8, 2);
    m.add_line(row(&[1, 1, -1, 0, 0, 1, 0, 1])).unwrap();
    m.add_line(row(&[2, -1, 0, -1, 0, 0, 1, 1])).unwrap();
    m.add_line(row(&[0, 3, 0, 0, 1, 0, 0, 2])).unwrap();
    m.add_line(row(&[6, 3, 0, 0, 0, 0, 0, 0])).unwrap();
    m.add_line(row(&[-3, 0, 1, 1, 0, 0, 0, -2])).unwrap();
    assert!(m.solve().is_ok());
}

#[test]
fn test_four_intervals() {
    let mut m = Matrix::new(0, 11, 2);
    let mut first = row(&[1, 0, 1, 0, 0, 0, 0, 0, 0, 0, 0]);
    first[10] = frac(3, 2);
    m.add_line(first).unwrap();
    m.add_line(row(&[0, 1, 0, 1, 0, 0, 0, 0, 0, 0, 1])).unwrap();
    m.add_line(row(&[1, 0, 0, 0, 1, 0, 0, 0, 0, 0, 2])).unwrap();
    m.add_line(row(&[1, 1, 0, 0, 0, 1, 0, 0, 0, 0, 3])).unwrap();
    // the overload constraints
    m.add_line(row(&[1, 0, 0, 0, 0, 0, -1, 0, 1, 0, 1])).unwrap();
    m.add_line(row(&[1, 1, 0, 0, 0, 0, 0, -1, 0, 1, 2])).unwrap();
    // the objective function (price)
    m.add_line(row(&[1, 2, 0, 0, 0, 0, 0, 0, 0, 0, 0])).unwrap();
    // the intermediate objective function
    m.add_line(row(&[-2, -1, 0, 0, 0, 0, 1, 1, 0, 0, -3])).unwrap();
    assert!(m.solve().is_ok());
}

#[test]
fn test_two_stage_savemyexams_com() {
    let mut m = Matrix::new(0, 9, 2);
    m.add_line(row(&[1, 1, 1, -1, 0, 0, 1, 0, 20])).unwrap();
    let mut second = row(&[2, -1, 2, 0, -1, 0, 0, 0, 25]);
    second[7] = frac(11, 10);
    m.add_line(second).unwrap();
    m.add_line(row(&[2, 3, 4, 0, 0, 1, 0, 0, 80])).unwrap();
    // P
    m.add_line(row(&[-2, -4, -3, 0, 0, 0, 0, 0, 0])).unwrap();
    // I
    m.add_line(row(&[-3, 0, -3, 1, 1, 0, 0, 0, -45])).unwrap();
    assert!(m.solve().is_ok());
}

fn two_phase_fixture() -> Matrix {
    let mut m = Matrix::new(0, 9, 2);
    // constraints on max load
    let mut first = row(&[1, 0, 1, 0, 0, 0, 0, 0, 0]);
    first[8] = frac(3, 2);
    m.add_line(first).unwrap();
    m.add_line(row(&[0, 1, 0, 1, 0, 0, 0, 0, 1])).unwrap();
    // constraints with artificial variables
    m.add_line(row(&[1, 0, 0, 0, -1, 0, 1, 0, 1])).unwrap();
    m.add_line(row(&[1, 1, 0, 0, 0, -1, 0, 1, 2])).unwrap();
    // objective function
    m.add_line(row(&[-1, -2, 0, 0, 0, 0, 0, 0, 0])).unwrap();
    // intermediate objective function
    m.add_line(row(&[2, 1, 0, 0, -1, -1, 0, 0, 3])).unwrap();
    m
}

#[test]
fn test_without_max_capacity() {
    let mut m = two_phase_fixture();
    assert!(m.solve().is_ok());
    m.phase_two();
    assert!(m.solve().is_ok());
    let solution = m.get_solution();
    assert_eq!(vec![frac(3, 2), frac(1, 2)], solution[0..2]);
}
