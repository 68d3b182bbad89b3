use simplex::{EnteringRule, Matrix, Outcome, Rational, Step, TableauError};

fn int_row(v: &[i32]) -> Vec<Rational> {
    v.iter().map(|&x| Rational::from_int(x)).collect()
}

fn classic() -> Matrix {
    let mut m = Matrix::new(0, 6, 0);
    m.add_line(int_row(&[1, 1, 1, 0, 0, 12])).unwrap();
    m.add_line(int_row(&[2, 1, 0, 1, 0, 16])).unwrap();
    m.add_line(int_row(&[-40, -30, 0, 0, 1, 0])).unwrap();
    m.set_entering_rule(EnteringRule::MostNegative);
    m
}

#[test]
fn add_line_appends_row_verbatim() {
    let mut m = Matrix::new(0, 3, 0);
    let line = vec![Rational::new(1, 2), Rational::from_int(-7), Rational::new(6, 4)];
    assert_eq!(m.add_line(line.clone()), Ok(()));
    assert_eq!(m.rows, 1);
    assert_eq!(m.cols, 3);
    assert_eq!(m.data, line);
    assert_eq!(m.add_line(int_row(&[4, 5, 6])), Ok(()));
    assert_eq!(m.rows, 2);
    assert_eq!(m.get(1, 2), Rational::from_int(6));
}

#[test]
fn add_line_shape_mismatch_leaves_tableau_unchanged() {
    let mut m = Matrix::new(0, 3, 0);
    m.add_line(int_row(&[1, 2, 3])).unwrap();
    let before = m.data.clone();
    assert_eq!(m.add_line(int_row(&[1, 2])), Err(TableauError::ShapeMismatch));
    assert_eq!(m.add_line(int_row(&[1, 2, 3, 4])), Err(TableauError::ShapeMismatch));
    assert_eq!(m.rows, 1);
    assert_eq!(m.cols, 3);
    assert_eq!(m.data, before);
}

#[test]
fn pivot_normalizes_and_eliminates() {
    let mut m = classic();
    assert_eq!(m.pivot((1, 0)), Ok(()));
    assert_eq!(m.get(1, 0), Rational::from_int(1));
    assert_eq!(m.get(0, 0), Rational::zero());
    assert_eq!(m.get(2, 0), Rational::zero());
    // scaled pivot row: [1, 1/2, 0, 1/2, 0, 8]
    assert_eq!(m.get(1, 1), Rational::new(1, 2));
    assert_eq!(m.get(1, 3), Rational::new(1, 2));
    assert_eq!(m.get(1, 5), Rational::from_int(8));
    // row 0 less the scaled row: [0, 1/2, 1, -1/2, 0, 4]
    assert_eq!(m.get(0, 1), Rational::new(1, 2));
    assert_eq!(m.get(0, 3), Rational::new(-1, 2));
    assert_eq!(m.get(0, 5), Rational::from_int(4));
    // objective plus 40 times the scaled row: [0, -10, 0, 20, 1, 320]
    assert_eq!(m.get(2, 1), Rational::from_int(-10));
    assert_eq!(m.get(2, 3), Rational::from_int(20));
    assert_eq!(m.get(2, 5), Rational::from_int(320));
}

#[test]
fn pivot_overflow_leaves_tableau_unchanged() {
    let mut m = Matrix::new(0, 2, 0);
    m.add_line(vec![Rational::new(1, 2), Rational::from_int(i32::MAX)]).unwrap();
    let before = m.data.clone();
    assert_eq!(m.pivot((0, 0)), Err(TableauError::Overflow));
    assert_eq!(m.data, before);
}

#[test]
fn solve_again_after_halting_changes_nothing() {
    let mut m = classic();
    assert_eq!(m.solve(), Ok(Outcome::Optimal));
    let before = m.data.clone();
    assert_eq!(m.find_pivot(), Step::Optimal);
    assert_eq!(m.solve(), Ok(Outcome::Optimal));
    assert_eq!(m.data, before);
}

#[test]
fn phase_two_optimum_has_no_positive_objective_entry() {
    let mut m = Matrix::new(0, 9, 2);
    let mut first = int_row(&[1, 0, 1, 0, 0, 0, 0, 0, 0]);
    first[8] = Rational::new(3, 2);
    m.add_line(first).unwrap();
    m.add_line(int_row(&[0, 1, 0, 1, 0, 0, 0, 0, 1])).unwrap();
    m.add_line(int_row(&[1, 0, 0, 0, -1, 0, 1, 0, 1])).unwrap();
    m.add_line(int_row(&[1, 1, 0, 0, 0, -1, 0, 1, 2])).unwrap();
    m.add_line(int_row(&[-1, -2, 0, 0, 0, 0, 0, 0, 0])).unwrap();
    m.add_line(int_row(&[2, 1, 0, 0, -1, -1, 0, 0, 3])).unwrap();
    assert_eq!(m.solve(), Ok(Outcome::Optimal));
    m.phase_two();
    assert_eq!(m.solve(), Ok(Outcome::Optimal));
    for c in 0..6 {
        assert!(!m.get(m.rows - 2, c).is_positive());
    }
    assert_eq!(m.find_most_positive_in_bottom_row(), None);
    let solution = m.get_solution();
    assert_eq!(solution[0], Rational::new(3, 2));
    assert_eq!(solution[1], Rational::new(1, 2));
}

#[test]
fn classic_scenario_solution() {
    let mut m = classic();
    assert_eq!(m.solve(), Ok(Outcome::Optimal));
    let solution = m.get_solution();
    assert_eq!(solution.len(), 5);
    assert_eq!(solution[0], Rational::from_int(4));
    assert_eq!(solution[1], Rational::from_int(8));
}

#[test]
fn ties_go_to_the_lower_index() {
    let mut m = Matrix::new(0, 5, 0);
    m.add_line(int_row(&[1, 1, 1, 0, 4])).unwrap();
    m.add_line(int_row(&[2, 2, 0, 1, 8])).unwrap();
    m.add_line(int_row(&[3, 3, 0, 0, 0])).unwrap();
    assert_eq!(m.find_most_positive_in_bottom_row(), Some((0, Rational::from_int(3))));
    assert_eq!(m.find_pivot(), Step::Pivot(0, 0));
    assert_eq!(m.find_pivot(), Step::Pivot(0, 0));

    let mut n = Matrix::new(0, 4, 0);
    n.add_line(int_row(&[1, 1, 0, 5])).unwrap();
    n.add_line(int_row(&[-5, -2, -5, 0])).unwrap();
    assert_eq!(n.find_most_negative_in_bottom_row(), Some((0, Rational::from_int(-5))));
}

#[test]
fn no_leaving_row_is_unbounded() {
    let mut m = Matrix::new(0, 3, 0);
    m.add_line(int_row(&[-1, 1, 2])).unwrap();
    m.add_line(int_row(&[1, 0, 0])).unwrap();
    let before = m.data.clone();
    assert_eq!(m.find_pivot(), Step::Unbounded);
    assert_eq!(m.solve(), Ok(Outcome::Unbounded));
    assert_eq!(m.data, before);
}

#[test]
fn phase_one_skips_rows_with_negative_rhs() {
    let mut m = Matrix::new(0, 3, 0);
    m.add_line(int_row(&[1, 0, -1])).unwrap();
    m.add_line(int_row(&[2, 1, 6])).unwrap();
    m.add_line(int_row(&[1, 0, 0])).unwrap();
    assert_eq!(m.find_pivot(), Step::Pivot(1, 0));
}

#[test]
fn phase_two_window_leaves_out_artificial_columns() {
    let mut m = Matrix::new(0, 5, 2);
    m.add_line(int_row(&[1, 0, 0, 0, 1])).unwrap();
    m.add_line(int_row(&[0, 0, 9, 9, 0])).unwrap();
    m.add_line(int_row(&[0, 0, 0, 0, 0])).unwrap();
    m.phase_two();
    assert_eq!(m.find_most_positive_in_bottom_row(), None);
    assert_eq!(m.find_pivot(), Step::Optimal);
    m.set(1, 1, Rational::from_int(4));
    assert_eq!(m.find_most_positive_in_bottom_row(), Some((1, Rational::from_int(4))));
}

#[test]
fn solution_check_counts_ones_per_row() {
    let mut m = Matrix::new(0, 4, 0);
    m.add_line(int_row(&[1, 0, 1, 5])).unwrap();
    m.add_line(int_row(&[0, 1, 0, 2])).unwrap();
    m.add_line(int_row(&[1, 1, 1, 0])).unwrap();
    assert!(m.check_if_we_have_a_solution(3));
    assert!(!m.check_if_we_have_a_solution(4));
    m.set(1, 0, Rational::new(2, 2));
    assert!(!m.check_if_we_have_a_solution(3));
}

#[test]
fn solution_reads_unit_columns_only() {
    let mut m = Matrix::new(0, 4, 0);
    m.add_line(int_row(&[1, 3, 0, 5])).unwrap();
    m.add_line(int_row(&[0, 2, 1, 7])).unwrap();
    assert_eq!(
        m.get_solution(),
        vec![Rational::from_int(5), Rational::zero(), Rational::from_int(7)]
    );
}

#[test]
fn rational_arithmetic_is_exact_and_reduced() {
    assert_eq!(Rational::new(1, 2).div(&Rational::new(3, 4)), Some(Rational::new(2, 3)));
    assert_eq!(Rational::new(-2, 4).div(&Rational::from_int(1)), Some(Rational::new(-1, 2)));
    assert_eq!(Rational::from_int(3).div(&Rational::from_int(-6)), Some(Rational::new(-1, 2)));
    assert_eq!(Rational::from_int(i32::MAX).div(&Rational::new(1, 2)), None);
    assert_eq!(
        Rational::from_int(5).sub_mul(&Rational::from_int(2), &Rational::new(1, 2)),
        Some(Rational::from_int(4))
    );
    assert_eq!(
        Rational::new(1, 3).sub_mul(&Rational::new(1, 3), &Rational::from_int(1)),
        Some(Rational::zero())
    );
    assert!(Rational::new(1, 3).lt(&Rational::new(1, 2)));
    assert!(!Rational::new(2, 4).lt(&Rational::new(1, 2)));
    assert!(Rational::new(4, 4).is_one());
    assert!(Rational::new(2, 4).same_as(&Rational::new(1, 2)));
    assert!(!Rational::new(2, 4).same_as(&Rational::new(1, 3)));
    assert_ne!(Rational::new(2, 4), Rational::new(1, 2));
}
