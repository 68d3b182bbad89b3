use crate::rational::{
    div_pair, fits, lemma_mul_pos, lemma_pair_lt_trans, lemma_reduce_same, lemma_reduce_zero,
    pair_lt, quotient_lt, reduce, sub_mul_pair, Rational,
};
use vstd::prelude::*;

verus! {

/// Which objective the tableau is currently driving: the auxiliary one, then the real one.
#[derive(Clone, Copy, Debug, PartialEq, Eq, Structural)]
pub enum Phase {
    One,
    Two,
}

/// The sign convention of the objective rows: which entries call for another pivot.
#[derive(Clone, Copy, Debug, PartialEq, Eq, Structural)]
pub enum EnteringRule {
    MostPositive,
    MostNegative,
}

/// The outcome of one pivot selection.
#[derive(Clone, Copy, Debug, PartialEq, Eq, Structural)]
pub enum Step {
    /// No entering column: the active objective is optimal.
    Optimal,
    /// An entering column, but no row may leave for it.
    Unbounded,
    /// Pivot on (row, column).
    Pivot(usize, usize),
}

/// How a run of the solve loop ended.
#[derive(Clone, Copy, Debug, PartialEq, Eq, Structural)]
pub enum Outcome {
    Optimal,
    Unbounded,
}

#[derive(Clone, Copy, Debug, PartialEq, Eq, Structural)]
pub enum TableauError {
    /// A row whose length is not the column count.
    ShapeMismatch,
    /// An exact result that does not fit the stored number form.
    Overflow,
    /// The solve loop ran out of its pivot allowance.
    PivotLimit,
}

/// The largest number of pivots one run of the solve loop makes.
pub const MAX_PIVOTS: u64 = 0xffff_ffff_ffff_ffff;

/// Tableau `i + 1` of `s` is tableau `i` after a pivot on the pair that the pivot
/// selection names in tableau `i`.
pub open spec fn chain_link(s: Seq<Matrix>, i: int) -> bool {
    exists|r: int, c: int| #[trigger] s[i].next_pivot(r, c) && s[i].pivot_step(s[i + 1], r, c)
}

/// Each tableau of `s` after the first comes from the one before by a selected pivot.
pub open spec fn pivot_chain(s: Seq<Matrix>) -> bool {
    forall|i: int| 0 <= i < s.len() - 1 ==> #[trigger] chain_link(s, i)
}

/// `b` is `a` after `n` pivots, each on the pair that the pivot selection names.
pub open spec fn pivots_to(a: Matrix, b: Matrix, n: nat) -> bool {
    exists|s: Seq<Matrix>|
        #[trigger] pivot_chain(s) && s.len() == n + 1 && s[0] == a && s[n as int] == b
}

/// The cell (r, c) of a row-major grid with `cols` columns.
pub open spec fn at(s: Seq<Rational>, cols: int, r: int, c: int) -> Rational {
    s[r * cols + c]
}

/// Whether `x` is of the sign that `rule` pivots on.
pub open spec fn favoured(rule: EnteringRule, x: Rational) -> bool {
    match rule {
        EnteringRule::MostPositive => x.num > 0,
        EnteringRule::MostNegative => x.num < 0,
    }
}

/// Whether `x` is strictly preferred to `y` under `rule`.
pub open spec fn better(rule: EnteringRule, x: Rational, y: Rational) -> bool {
    match rule {
        EnteringRule::MostPositive => pair_lt(y@, x@),
        EnteringRule::MostNegative => pair_lt(x@, y@),
    }
}

proof fn lemma_cell_index(r: int, c: int, rows: int, cols: int) by (nonlinear_arith)
    requires
        0 <= r < rows,
        0 <= c < cols,
    ensures
        0 <= r * cols + c < rows * cols,
        r * cols + c < r * cols + cols,
        (r + 1) * cols == r * cols + cols,
        (r + 1) * cols <= rows * cols,
{
}

/// A dense simplex tableau of exact rationals, stored row by row.
pub struct Matrix {
    pub stage: Phase,
    pub rule: EnteringRule,
    pub artificials: usize,
    pub rows: usize,
    pub cols: usize,
    pub data: Vec<Rational>,
}

impl Matrix {
    pub open spec fn phase(self) -> Phase {
        self.stage
    }

    pub open spec fn entering_rule(self) -> EnteringRule {
        self.rule
    }

    pub open spec fn artificial_count(self) -> nat {
        self.artificials as nat
    }

    /// The grid holds `rows * cols` well-formed numbers, and there is a right-hand-side
    /// column.
    pub open spec fn wf(self) -> bool {
        &&& self.cols >= 1
        &&& self.data@.len() == self.rows * self.cols
        &&& self.rows * self.cols <= usize::MAX
        &&& forall|k: int| 0 <= k < self.data@.len() ==> (#[trigger] self.data@[k]).wf()
    }

    pub open spec fn cell(self, r: int, c: int) -> Rational {
        at(self.data@, self.cols as int, r, c)
    }

    /// The same dimensions, phase, rule and artificial count.
    pub open spec fn same_shape(self, o: Matrix) -> bool {
        &&& self.rows == o.rows
        &&& self.cols == o.cols
        &&& self.phase() == o.phase()
        &&& self.entering_rule() == o.entering_rule()
        &&& self.artificial_count() == o.artificial_count()
    }

    /// The right-hand-side column.
    pub open spec fn rhs(self) -> int {
        self.cols - 1
    }

    /// The row searched for an entering column: the last row in phase one, the one
    /// above it in phase two.
    pub open spec fn objective_row(self) -> int {
        if self.phase() == Phase::One {
            self.rows - 1
        } else {
            self.rows - 2
        }
    }

    /// The end of the entering-column search: all variable columns in phase one; in
    /// phase two the artificial columns are left out as well.
    pub open spec fn window_end(self) -> int {
        if self.phase() == Phase::One {
            self.cols - 1
        } else if self.cols > self.artificial_count() + 1 {
            self.cols - self.artificial_count() - 1
        } else {
            0
        }
    }

    /// Well formed, with an objective row and a right-hand side to work on.
    pub open spec fn ready(self) -> bool {
        &&& self.wf()
        &&& self.cols >= 1
        &&& self.phase() == Phase::One ==> self.rows >= 1
        &&& self.phase() == Phase::Two ==> self.rows >= 2
    }

    /// Column `c` is the first best entry of the favoured sign in `row`, among columns `0..end`.
    pub open spec fn best_in(self, row: int, end: int, rule: EnteringRule, c: int) -> bool {
        &&& 0 <= c < end
        &&& favoured(rule, self.cell(row, c))
        &&& forall|k: int|
            0 <= k < end && favoured(rule, #[trigger] self.cell(row, k)) ==> !better(
                rule,
                self.cell(row, k),
                self.cell(row, c),
            )
        &&& forall|k: int|
            0 <= k < c && favoured(rule, #[trigger] self.cell(row, k)) ==> better(
                rule,
                self.cell(row, c),
                self.cell(row, k),
            )
    }

    pub open spec fn any_favoured(self, row: int, end: int, rule: EnteringRule) -> bool {
        exists|k: int| 0 <= k < end && favoured(rule, #[trigger] self.cell(row, k))
    }

    pub open spec fn is_entering(self, c: int) -> bool {
        self.best_in(self.objective_row(), self.window_end(), self.entering_rule(), c)
    }

    pub open spec fn has_entering(self) -> bool {
        self.any_favoured(self.objective_row(), self.window_end(), self.entering_rule())
    }

    /// The rows the ratio test looks at: all but the last in phase one, all in phase two.
    pub open spec fn scan_rows(self) -> int {
        if self.phase() == Phase::One {
            self.rows - 1
        } else {
            self.rows as int
        }
    }

    /// Row `r` may leave for column `c`: a positive entry there and, in phase one, a
    /// right-hand side that is not negative.
    pub open spec fn eligible(self, r: int, c: int) -> bool {
        &&& 0 <= r < self.scan_rows()
        &&& self.cell(r, c).num > 0
        &&& self.phase() == Phase::One ==> self.cell(r, self.rhs()).num >= 0
    }

    /// The ratio of row `r` in column `c`: its right-hand side over its entry.
    pub open spec fn ratio(self, r: int, c: int) -> (int, int) {
        div_pair(self.cell(r, self.rhs())@, self.cell(r, c)@)
    }

    /// Row `r` is the first eligible row of least ratio for column `c`.
    pub open spec fn is_leaving(self, r: int, c: int) -> bool {
        &&& self.eligible(r, c)
        &&& forall|k: int| #[trigger]
            self.eligible(k, c) ==> !pair_lt(self.ratio(k, c), self.ratio(r, c))
        &&& forall|k: int| 0 <= k < r && #[trigger] self.eligible(k, c) ==> pair_lt(
            self.ratio(r, c),
            self.ratio(k, c),
        )
    }

    pub open spec fn has_leaving(self, c: int) -> bool {
        exists|r: int| #[trigger] self.eligible(r, c)
    }

    /// An entering column exists, and no row may leave for it.
    pub open spec fn unbounded(self) -> bool {
        exists|c: int| #[trigger] self.is_entering(c) && !self.has_leaving(c)
    }

    /// Cell (i, c) once row `i` is divided by its entry in column `j`.
    pub open spec fn scaled(self, i: int, j: int, c: int) -> (int, int) {
        reduce(div_pair(self.cell(i, c)@, self.cell(i, j)@))
    }

    /// Cell (r, c) after a pivot on (i, j): row `i` scaled, every other row less its
    /// column-`j` entry times the scaled row.
    pub open spec fn pivoted(self, i: int, j: int, r: int, c: int) -> (int, int) {
        if r == i {
            self.scaled(i, j, c)
        } else {
            reduce(sub_mul_pair(self.cell(r, c)@, self.cell(r, j)@, self.scaled(i, j, c)))
        }
    }

    /// Every cell of the pivot on (i, j) fits the stored number form.
    pub open spec fn pivot_fits(self, i: int, j: int) -> bool {
        forall|r: int, c: int|
            0 <= r < self.rows && 0 <= c < self.cols ==> fits(#[trigger] self.pivoted(i, j, r, c))
    }

    /// The state in which the solve loop stops with outcome `o`: no entering column
    /// (optimal), or an entering column that no row may leave for (unbounded).
    pub open spec fn halted_with(self, o: Outcome) -> bool {
        match o {
            Outcome::Optimal => !self.has_entering(),
            Outcome::Unbounded => self.unbounded(),
        }
    }

    /// The pivot selection names (r, c).
    pub open spec fn next_pivot(self, r: int, c: int) -> bool {
        self.is_entering(c) && self.is_leaving(r, c)
    }

    /// `next` is this tableau after a pivot on (i, j): the same shape, each cell as
    /// `pivoted` gives it.
    pub open spec fn pivot_step(self, next: Matrix, i: int, j: int) -> bool {
        &&& next.wf()
        &&& next.same_shape(self)
        &&& forall|r: int, c: int|
            0 <= r < self.rows && 0 <= c < self.cols ==> (#[trigger] next.cell(r, c))@
                == self.pivoted(i, j, r, c)
    }

    /// Row `r` is the only row with a nonzero entry in column `c`.
    pub open spec fn sole_nonzero(self, c: int, r: int) -> bool {
        &&& 0 <= r < self.rows
        &&& self.cell(r, c).num != 0
        &&& forall|k: int| 0 <= k < self.rows && k != r ==> #[trigger] self.cell(k, c).num == 0
    }

    /// Column `c` is a unit-like column: exactly one row is nonzero there.
    pub open spec fn is_basic(self, c: int) -> bool {
        exists|r: int| #[trigger] self.sole_nonzero(c, r)
    }

    pub open spec fn one_at(self, r: int, c: int) -> bool {
        self.cell(r, c).num == self.cell(r, c).den
    }

    /// Row `r` holds the value one in two distinct columns below `n`.
    pub open spec fn repeated_one(self, r: int, n: int) -> bool {
        exists|c1: int, c2: int|
            #![trigger self.one_at(r, c1), self.one_at(r, c2)]
            0 <= c1 < c2 < n && self.one_at(r, c1) && self.one_at(r, c2)
    }

    /// A `rows` by `cols` grid of zeros in phase one, with the most-positive rule.
    pub fn new(rows: usize, cols: usize, artificials: usize) -> (m: Matrix)
        requires
            cols >= 1,
            rows * cols <= usize::MAX,
        ensures
            m.wf(),
            m.rows == rows,
            m.cols == cols,
            m.artificial_count() == artificials,
            m.phase() == Phase::One,
            m.entering_rule() == EnteringRule::MostPositive,
            forall|k: int| 0 <= k < rows * cols ==> #[trigger] m.data@[k] == Rational::zero_spec(),
    {
        let n = rows * cols;
        let mut data: Vec<Rational> = Vec::new();
        while data.len() < n
            invariant
                data@.len() <= n,
                forall|k: int| 0 <= k < data@.len() ==> #[trigger] data@[k] == Rational::zero_spec(),
            decreases n - data@.len(),
        {
            data.push(Rational::zero());
        }
        Matrix { stage: Phase::One, rule: EnteringRule::MostPositive, artificials, rows, cols, data }
    }

    /// Cell (row, col).
    pub fn get(&self, row: usize, col: usize) -> (r: Rational)
        requires
            self.wf(),
            row < self.rows,
            col < self.cols,
        ensures
            r == self.cell(row as int, col as int),
            r.wf(),
    {
        proof {
            lemma_cell_index(row as int, col as int, self.rows as int, self.cols as int);
        }
        self.data[row * self.cols + col]
    }

    /// Overwrites cell (i, j).
    pub fn set(&mut self, i: usize, j: usize, val: Rational)
        requires
            old(self).wf(),
            i < old(self).rows,
            j < old(self).cols,
            val.wf(),
        ensures
            final(self).wf(),
            final(self).same_shape(*old(self)),
            final(self).data@ == old(self).data@.update(i * old(self).cols + j, val),
            final(self).cell(i as int, j as int) == val,
    {
        proof {
            lemma_cell_index(i as int, j as int, self.rows as int, self.cols as int);
        }
        let k = i * self.cols + j;
        self.data.set(k, val);
    }

    /// Appends a row; a row whose length is not the column count is refused and the
    /// tableau is left as it was.
    pub fn add_line(&mut self, line: Vec<Rational>) -> (r: Result<(), TableauError>)
        requires
            old(self).wf(),
            forall|k: int| 0 <= k < line@.len() ==> (#[trigger] line@[k]).wf(),
        ensures
            final(self).wf(),
            line@.len() == old(self).cols ==> {
                &&& r is Ok
                &&& final(self).rows == old(self).rows + 1
                &&& final(self).cols == old(self).cols
                &&& final(self).phase() == old(self).phase()
                &&& final(self).entering_rule() == old(self).entering_rule()
                &&& final(self).artificial_count() == old(self).artificial_count()
                &&& final(self).data@ == old(self).data@ + line@
            },
            line@.len() != old(self).cols ==> r == Err::<(), TableauError>(
                TableauError::ShapeMismatch,
            ) && *final(self) == *old(self),
    {
        if self.cols != line.len() {
            return Err(TableauError::ShapeMismatch);
        }
        let mut line = line;
        self.data.append(&mut line);
        let len = self.data.len();
        assert(self.rows + 1 <= len && len == (self.rows + 1) * self.cols) by (nonlinear_arith)
            requires
                len == self.rows * self.cols + self.cols,
                self.cols >= 1,
        ;
        self.rows = self.rows + 1;
        Ok(())
    }

    /// Switches to phase two; there is no way back.
    pub fn phase_two(&mut self)
        ensures
            final(self).phase() == Phase::Two,
            final(self).rows == old(self).rows,
            final(self).cols == old(self).cols,
            final(self).data == old(self).data,
            final(self).entering_rule() == old(self).entering_rule(),
            final(self).artificial_count() == old(self).artificial_count(),
    {
        self.stage = Phase::Two;
    }

    /// Chooses the sign convention of the objective rows.
    pub fn set_entering_rule(&mut self, rule: EnteringRule)
        ensures
            final(self).entering_rule() == rule,
            final(self).rows == old(self).rows,
            final(self).cols == old(self).cols,
            final(self).data == old(self).data,
            final(self).phase() == old(self).phase(),
            final(self).artificial_count() == old(self).artificial_count(),
    {
        self.rule = rule;
    }

    proof fn lemma_cells_wf(self)
        requires
            self.wf(),
        ensures
            forall|r: int, c: int|
                0 <= r < self.rows && 0 <= c < self.cols ==> (#[trigger] self.cell(r, c)).wf(),
    {
        assert forall|r: int, c: int|
            0 <= r < self.rows && 0 <= c < self.cols implies (#[trigger] self.cell(r, c)).wf() by {
            lemma_cell_index(r, c, self.rows as int, self.cols as int);
        }
    }

    /// The first best entry of the favoured sign among columns `0..end` of `row`.
    fn scan_row(&self, row: usize, end: usize, rule: EnteringRule) -> (r: Option<(usize, Rational)>)
        requires
            self.wf(),
            row < self.rows,
            end <= self.cols,
        ensures
            r is None <==> !self.any_favoured(row as int, end as int, rule),
            r matches Some((c, v)) ==> self.best_in(row as int, end as int, rule, c as int) && v
                == self.cell(row as int, c as int),
    {
        proof {
            self.lemma_cells_wf();
        }
        let mut found: Option<(usize, Rational)> = None;
        let mut k: usize = 0;
        while k < end
            invariant
                self.wf(),
                row < self.rows,
                end <= self.cols,
                k <= end,
                forall|r: int, c: int|
                    0 <= r < self.rows && 0 <= c < self.cols ==> (#[trigger] self.cell(r, c)).wf(),
                found is None <==> !self.any_favoured(row as int, k as int, rule),
                found matches Some((c, v)) ==> self.best_in(row as int, k as int, rule, c as int)
                    && v == self.cell(row as int, c as int),
            decreases end - k,
        {
            let x = self.get(row, k);
            let take = match rule {
                EnteringRule::MostPositive => x.is_positive(),
                EnteringRule::MostNegative => x.is_negative(),
            };
            let ghost old_found = found;
            if take {
                match found {
                    None => {
                        found = Some((k, x));
                    },
                    Some((c, v)) => {
                        let improves = match rule {
                            EnteringRule::MostPositive => v.lt(&x),
                            EnteringRule::MostNegative => x.lt(&v),
                        };
                        if improves {
                            proof {
                                assert forall|j: int|
                                    0 <= j < k + 1 && favoured(
                                        rule,
                                        #[trigger] self.cell(row as int, j),
                                    ) implies better(rule, x, self.cell(row as int, j)) || j == k by {
                                    if j < k {
                                        let y = self.cell(row as int, j);
                                        lemma_pair_lt_trans(y@, v@, x@);
                                        lemma_pair_lt_trans(x@, v@, y@);
                                    }
                                }
                            }
                            found = Some((k, x));
                        }
                    },
                }
            }
            proof {
                if !take {
                    if found is Some {
                        let (c, v) = found->Some_0;
                        assert(self.best_in(row as int, k + 1, rule, c as int));
                    }
                }
            }
            k += 1;
        }
        found
    }

    /// The first most negative entry of the last row, right-hand side left out.
    pub fn find_most_negative_in_bottom_row(&self) -> (r: Option<(usize, Rational)>)
        requires
            self.wf(),
            self.rows >= 1,
            self.cols >= 1,
        ensures
            r is None <==> !self.any_favoured(
                self.rows - 1,
                self.cols - 1,
                EnteringRule::MostNegative,
            ),
            r matches Some((c, v)) ==> self.best_in(
                self.rows - 1,
                self.cols - 1,
                EnteringRule::MostNegative,
                c as int,
            ) && v == self.cell(self.rows - 1, c as int),
    {
        self.scan_row(self.rows - 1, self.cols - 1, EnteringRule::MostNegative)
    }

    fn window(&self) -> (end: usize)
        requires
            self.cols >= 1,
        ensures
            end == self.window_end(),
    {
        match self.stage {
            Phase::One => self.cols - 1,
            Phase::Two => if self.cols - 1 > self.artificials {
                self.cols - 1 - self.artificials
            } else {
                0
            },
        }
    }

    fn objective(&self) -> (row: usize)
        requires
            self.ready(),
        ensures
            row == self.objective_row(),
    {
        match self.stage {
            Phase::One => self.rows - 1,
            Phase::Two => self.rows - 2,
        }
    }

    /// The first most positive entry of the phase's objective row, within its window.
    pub fn find_most_positive_in_bottom_row(&self) -> (r: Option<(usize, Rational)>)
        requires
            self.ready(),
        ensures
            r is None <==> !self.any_favoured(
                self.objective_row(),
                self.window_end(),
                EnteringRule::MostPositive,
            ),
            r matches Some((c, v)) ==> self.best_in(
                self.objective_row(),
                self.window_end(),
                EnteringRule::MostPositive,
                c as int,
            ) && v == self.cell(self.objective_row(), c as int),
    {
        let row = self.objective();
        let end = self.window();
        self.scan_row(row, end, EnteringRule::MostPositive)
    }

    /// The entering column under the tableau's rule, then the leaving row by the ratio test.
    pub fn find_pivot(&self) -> (s: Step)
        requires
            self.ready(),
        ensures
            s == Step::Optimal <==> !self.has_entering(),
            s == Step::Unbounded ==> self.unbounded(),
            s matches Step::Pivot(r, c) ==> self.is_entering(c as int) && self.is_leaving(
                r as int,
                c as int,
            ),
    {
        proof {
            self.lemma_cells_wf();
        }
        let row = self.objective();
        let end = self.window();
        let col = match self.scan_row(row, end, self.rule) {
            None => {
                return Step::Optimal;
            },
            Some((c, _)) => c,
        };
        let limit = match self.stage {
            Phase::One => self.rows - 1,
            Phase::Two => self.rows,
        };
        let rhs = self.cols - 1;
        let mut best: Option<usize> = None;
        let mut r: usize = 0;
        while r < limit
            invariant
                self.ready(),
                forall|r: int, c: int|
                    0 <= r < self.rows && 0 <= c < self.cols ==> (#[trigger] self.cell(r, c)).wf(),
                col < self.cols,
                rhs == self.rhs(),
                limit == self.scan_rows(),
                r <= limit,
                best is None ==> forall|k: int| 0 <= k < r ==> !#[trigger] self.eligible(k, col as int),
                best matches Some(b) ==> {
                    &&& b < r
                    &&& self.eligible(b as int, col as int)
                    &&& forall|k: int|
                        0 <= k < r && #[trigger] self.eligible(k, col as int) ==> !pair_lt(
                            self.ratio(k, col as int),
                            self.ratio(b as int, col as int),
                        )
                    &&& forall|k: int|
                        0 <= k < b && #[trigger] self.eligible(k, col as int) ==> pair_lt(
                            self.ratio(b as int, col as int),
                            self.ratio(k, col as int),
                        )
                },
            decreases limit - r,
        {
            let a = self.get(r, col);
            let b = self.get(r, rhs);
            let ok = match self.stage {
                Phase::One => a.is_positive() && !b.is_negative(),
                Phase::Two => a.is_positive(),
            };
            if ok {
                match best {
                    None => {
                        best = Some(r);
                    },
                    Some(bi) => {
                        let ba = self.get(bi, col);
                        let bb = self.get(bi, rhs);
                        if quotient_lt(&b, &a, &bb, &ba) {
                            proof {
                                let x = self.ratio(r as int, col as int);
                                let v = self.ratio(bi as int, col as int);
                                lemma_mul_pos(b.den as int, a.num as int);
                                lemma_mul_pos(bb.den as int, ba.num as int);
                                assert forall|k: int|
                                    0 <= k < r && #[trigger] self.eligible(k, col as int) implies pair_lt(
                                    x,
                                    self.ratio(k, col as int),
                                ) by {
                                    let y = self.ratio(k, col as int);
                                    lemma_mul_pos(
                                        self.cell(k, rhs as int).den as int,
                                        self.cell(k, col as int).num as int,
                                    );
                                    lemma_pair_lt_trans(x, v, y);
                                }
                            }
                            best = Some(r);
                        }
                    },
                }
            }
            r += 1;
        }
        match best {
            None => {
                proof {
                    assert(!self.has_leaving(col as int));
                    assert(self.is_entering(col as int));
                }
                Step::Unbounded
            },
            Some(b) => Step::Pivot(b, col),
        }
    }

    /// The pivot column comes out as a unit column.
    proof fn lemma_pivot_column(self, i: int, j: int)
        requires
            self.wf(),
            0 <= i < self.rows,
            0 <= j < self.cols,
            self.cell(i, j).num != 0,
        ensures
            self.pivoted(i, j, i, j) == (1int, 1int),
            forall|k: int| 0 <= k < self.rows && k != i ==> #[trigger] self.pivoted(i, j, k, j) == (0int, 1int),
    {
        self.lemma_cells_wf();
        let p = self.cell(i, j);
        if p.num > 0 {
            lemma_mul_pos(p.num as int, p.den as int);
            assert(p.num as int * p.den as int == p.den as int * p.num as int) by (nonlinear_arith);
            lemma_reduce_same(p.num as int * p.den as int);
        } else {
            lemma_mul_pos(-p.num, p.den as int);
            assert(-(p.num as int * p.den as int) == p.den as int * (-p.num)) by (nonlinear_arith);
            assert(-(p.num as int * p.den as int) == (-p.num) * p.den as int) by (nonlinear_arith);
            lemma_reduce_same(-p.num * p.den as int);
        }
        assert forall|k: int| 0 <= k < self.rows && k != i implies #[trigger] self.pivoted(i, j, k, j) == (
        0int,
        1int,
        ) by {
            let a = self.cell(k, j);
            assert(a.num as int * a.den as int * 1 - a.num as int * 1 * a.den as int == 0) by (nonlinear_arith);
            lemma_mul_pos(a.den as int, a.den as int);
            assert(a.den as int * a.den as int * 1 == a.den as int * a.den as int);
            lemma_reduce_zero(a.den as int * a.den as int);
        }
    }

    /// Gauss-Jordan elimination on (i, j), exact; nothing changes if a result does not fit.
    pub fn pivot(&mut self, pivot: (usize, usize)) -> (res: Result<(), TableauError>)
        requires
            old(self).wf(),
            pivot.0 < old(self).rows,
            pivot.1 < old(self).cols,
            old(self).cell(pivot.0 as int, pivot.1 as int).num != 0,
        ensures
            res is Ok <==> old(self).pivot_fits(pivot.0 as int, pivot.1 as int),
            res is Ok ==> {
                &&& final(self).wf()
                &&& final(self).same_shape(*old(self))
                &&& forall|r: int, c: int|
                    0 <= r < old(self).rows && 0 <= c < old(self).cols ==> (#[trigger] final(self).cell(r, c))@
                        == old(self).pivoted(pivot.0 as int, pivot.1 as int, r, c)
                &&& final(self).cell(pivot.0 as int, pivot.1 as int) == Rational::one_spec()
                &&& forall|k: int|
                    0 <= k < old(self).rows && k != pivot.0 ==> #[trigger] final(self).cell(
                        k,
                        pivot.1 as int,
                    ) == Rational::zero_spec()
            },
            res is Err ==> res == Err::<(), TableauError>(TableauError::Overflow) && *final(self)
                == *old(self),
    {
        let i = pivot.0;
        let j = pivot.1;
        let rows = self.rows;
        let cols = self.cols;
        proof {
            self.lemma_cells_wf();
        }
        let p = self.get(i, j);
        let mut prow: Vec<Rational> = Vec::new();
        let mut c: usize = 0;
        while c < cols
            invariant
                *self == *old(self),
                i == pivot.0,
                j == pivot.1,
                self.wf(),
                forall|r: int, c: int|
                    0 <= r < self.rows && 0 <= c < self.cols ==> (#[trigger] self.cell(r, c)).wf(),
                i < rows,
                j < cols,
                rows == self.rows,
                cols == self.cols,
                p == self.cell(i as int, j as int),
                p.num != 0,
                c <= cols,
                prow@.len() == c,
                forall|k: int|
                    0 <= k < c ==> (#[trigger] prow@[k]).wf() && prow@[k]@ == self.scaled(
                        i as int,
                        j as int,
                        k,
                    ) && fits(self.scaled(i as int, j as int, k)),
            decreases cols - c,
        {
            let x = self.get(i, c);
            match x.div(&p) {
                None => {
                    proof {
                        assert(!fits(self.pivoted(i as int, j as int, i as int, c as int)));
                        assert(!old(self).pivot_fits(i as int, j as int));
                    }
                    return Err(TableauError::Overflow);
                },
                Some(q) => {
                    assert(q@ == self.scaled(i as int, j as int, c as int));
                    prow.push(q);
                    assert(prow@[c as int] == q);
                },
            }
            c += 1;
        }
        let mut out: Vec<Rational> = Vec::new();
        let mut r: usize = 0;
        while r < rows
            invariant
                *self == *old(self),
                i == pivot.0,
                j == pivot.1,
                self.wf(),
                forall|r: int, c: int|
                    0 <= r < self.rows && 0 <= c < self.cols ==> (#[trigger] self.cell(r, c)).wf(),
                i < rows,
                j < cols,
                rows == self.rows,
                cols == self.cols,
                r <= rows,
                prow@.len() == cols,
                forall|k: int|
                    0 <= k < cols ==> (#[trigger] prow@[k]).wf() && prow@[k]@ == self.scaled(
                        i as int,
                        j as int,
                        k,
                    ),
                out@.len() == r * cols,
                forall|k: int| 0 <= k < out@.len() ==> (#[trigger] out@[k]).wf(),
                forall|rr: int, cc: int|
                    0 <= rr < r && 0 <= cc < cols ==> (#[trigger] at(out@, cols as int, rr, cc))@
                        == self.pivoted(i as int, j as int, rr, cc) && fits(
                        self.pivoted(i as int, j as int, rr, cc),
                    ),
            decreases rows - r,
        {
            let factor = self.get(r, j);
            let mut c: usize = 0;
            while c < cols
                invariant
                    *self == *old(self),
                    i == pivot.0,
                    j == pivot.1,
                    self.wf(),
                    forall|r: int, c: int|
                        0 <= r < self.rows && 0 <= c < self.cols ==> (#[trigger] self.cell(r, c)).wf(),
                    i < rows,
                    j < cols,
                    rows == self.rows,
                    cols == self.cols,
                    r < rows,
                    c <= cols,
                    factor == self.cell(r as int, j as int),
                    prow@.len() == cols,
                    forall|k: int|
                        0 <= k < cols ==> (#[trigger] prow@[k]).wf() && prow@[k]@ == self.scaled(
                            i as int,
                            j as int,
                            k,
                        ),
                    out@.len() == r * cols + c,
                    forall|k: int| 0 <= k < out@.len() ==> (#[trigger] out@[k]).wf(),
                    forall|rr: int, cc: int|
                        (0 <= rr < r && 0 <= cc < cols) || (rr == r && 0 <= cc < c) ==> (#[trigger] at(
                            out@,
                            cols as int,
                            rr,
                            cc,
                        ))@ == self.pivoted(i as int, j as int, rr, cc) && fits(
                            self.pivoted(i as int, j as int, rr, cc),
                        ),
                decreases cols - c,
            {
                proof {
                    lemma_cell_index(r as int, c as int, rows as int, cols as int);
                }
                let v = if r == i {
                    prow[c]
                } else {
                    let x = self.get(r, c);
                    match x.sub_mul(&factor, &prow[c]) {
                        None => {
                            proof {
                                assert(!fits(self.pivoted(i as int, j as int, r as int, c as int)));
                                assert(!old(self).pivot_fits(i as int, j as int));
                            }
                            return Err(TableauError::Overflow);
                        },
                        Some(v) => v,
                    }
                };
                let ghost before = out@;
                out.push(v);
                proof {
                    assert forall|rr: int, cc: int|
                        (0 <= rr < r && 0 <= cc < cols) || (rr == r && 0 <= cc < c + 1) implies (#[trigger] at(
                            out@,
                            cols as int,
                            rr,
                            cc,
                        ))@ == self.pivoted(i as int, j as int, rr, cc) && fits(
                            self.pivoted(i as int, j as int, rr, cc),
                        ) by {
                        if rr < r {
                            lemma_cell_index(rr, cc, r as int, cols as int);
                            assert(at(out@, cols as int, rr, cc) == at(before, cols as int, rr, cc));
                        } else if cc < c {
                            assert(at(out@, cols as int, rr, cc) == at(before, cols as int, rr, cc));
                        }
                    }
                }
                c += 1;
            }
            proof {
                lemma_cell_index(r as int, 0, rows as int, cols as int);
            }
            r += 1;
        }
        proof {
            assert(out@.len() == rows * cols);
            self.lemma_pivot_column(i as int, j as int);
            assert forall|rr: int, cc: int|
                0 <= rr < self.rows && 0 <= cc < self.cols implies fits(
                #[trigger] self.pivoted(i as int, j as int, rr, cc),
            ) by {
                assert(at(out@, cols as int, rr, cc)@ == self.pivoted(i as int, j as int, rr, cc));
            }
        }
        self.data = out;
        Ok(())
    }
    proof fn lemma_entering_unique(self, c1: int, c2: int)
        requires
            self.is_entering(c1),
            self.is_entering(c2),
        ensures
            c1 == c2,
    {
        let row = self.objective_row();
        if c1 < c2 {
            assert(favoured(self.entering_rule(), self.cell(row, c1)));
        } else if c2 < c1 {
            assert(favoured(self.entering_rule(), self.cell(row, c2)));
        }
    }

    /// The pivot selection names at most one pair, and one pivot step fixes every cell
    /// of the next tableau: a chain of selected pivots is fixed by where it starts.
    pub proof fn lemma_step_deterministic(
        self,
        b1: Matrix,
        b2: Matrix,
        r1: int,
        c1: int,
        r2: int,
        c2: int,
    )
        requires
            self.next_pivot(r1, c1),
            self.next_pivot(r2, c2),
            self.pivot_step(b1, r1, c1),
            self.pivot_step(b2, r2, c2),
        ensures
            r1 == r2,
            c1 == c2,
            b1.same_shape(b2),
            forall|r: int, c: int|
                0 <= r < self.rows && 0 <= c < self.cols ==> #[trigger] b1.cell(r, c) == b2.cell(
                    r,
                    c,
                ),
    {
        self.lemma_entering_unique(c1, c2);
        if r1 < r2 {
            assert(self.eligible(r1, c1));
        } else if r2 < r1 {
            assert(self.eligible(r2, c1));
        }
        assert forall|r: int, c: int|
            0 <= r < self.rows && 0 <= c < self.cols implies #[trigger] b1.cell(r, c) == b2.cell(
            r,
            c,
        ) by {
            assert(b1.cell(r, c)@ == b2.cell(r, c)@);
        }
    }

    /// Pivots until no pivot is left for the active objective, and says why it stopped.
    /// The tableau it leaves is the given one after a chain of selected pivots; a
    /// tableau it stopped on with an outcome is left as it is by the next call.
    pub fn solve(&mut self) -> (res: Result<Outcome, TableauError>)
        requires
            old(self).ready(),
        ensures
            final(self).ready(),
            final(self).same_shape(*old(self)),
            exists|n: nat| #[trigger] pivots_to(*old(self), *final(self), n),
            res == Err::<Outcome, TableauError>(TableauError::PivotLimit) ==> pivots_to(
                *old(self),
                *final(self),
                MAX_PIVOTS as nat,
            ),
            res matches Ok(o) ==> final(self).halted_with(o),
            forall|o: Outcome| #[trigger]
                old(self).halted_with(o) ==> res == Ok::<Outcome, TableauError>(o) && *final(self)
                    == *old(self),
            res == Err::<Outcome, TableauError>(TableauError::Overflow) ==> exists|r: int, c: int|
                #[trigger] final(self).next_pivot(r, c) && !final(self).pivot_fits(r, c),
            res == Err::<Outcome, TableauError>(TableauError::PivotLimit) ==> exists|r: int, c: int|
                #[trigger] final(self).next_pivot(r, c),
            res != Err::<Outcome, TableauError>(TableauError::ShapeMismatch),
    {
        let mut budget: u64 = MAX_PIVOTS;
        let ghost mut done: nat = 0;
        let ghost mut trace: Seq<Matrix> = seq![*self];
        proof {
            assert(pivot_chain(trace));
        }
        loop
            invariant
                self.ready(),
                self.same_shape(*old(self)),
                done + budget == MAX_PIVOTS,
                pivot_chain(trace),
                trace.len() == done + 1,
                trace[0] == *old(self),
                trace[done as int] == *self,
                budget == MAX_PIVOTS ==> *self == *old(self),
                budget < MAX_PIVOTS ==> old(self).has_entering() && !old(self).unbounded(),
            decreases budget,
        {
            proof {
                assert(pivots_to(*old(self), *self, done));
            }
            match self.find_pivot() {
                Step::Optimal => {
                    proof {
                        if budget == MAX_PIVOTS && self.unbounded() {
                            let c = choose|c: int| #[trigger]
                                self.is_entering(c) && !self.has_leaving(c);
                            assert(favoured(
                                self.entering_rule(),
                                self.cell(self.objective_row(), c),
                            ));
                        }
                    }
                    return Ok(Outcome::Optimal);
                },
                Step::Unbounded => {
                    proof {
                        let c = choose|c: int| #[trigger] self.is_entering(c) && !self.has_leaving(c);
                        assert(favoured(self.entering_rule(), self.cell(self.objective_row(), c)));
                    }
                    return Ok(Outcome::Unbounded);
                },
                Step::Pivot(r, c) => {
                    proof {
                        assert(self.next_pivot(r as int, c as int));
                        assert(self.eligible(r as int, c as int));
                        assert(self.has_leaving(c as int));
                        assert forall|c2: int| #[trigger]
                            self.is_entering(c2) implies self.has_leaving(c2) by {
                            self.lemma_entering_unique(c as int, c2);
                        }
                    }
                    if budget == 0 {
                        return Err(TableauError::PivotLimit);
                    }
                    let ghost prev = *self;
                    match self.pivot((r, c)) {
                        Err(e) => {
                            return Err(e);
                        },
                        Ok(()) => {},
                    }
                    proof {
                        assert(prev.pivot_step(*self, r as int, c as int));
                        assert(prev.next_pivot(r as int, c as int));
                        let next = trace.push(*self);
                        assert(next[done as int] == prev);
                        assert(next[done as int + 1] == *self);
                        assert(next[done as int].next_pivot(r as int, c as int));
                        assert(chain_link(next, done as int));
                        assert forall|i: int| 0 <= i < next.len() - 1 implies #[trigger] chain_link(
                            next,
                            i,
                        ) by {
                            if i < done {
                                assert(chain_link(trace, i));
                                assert(next[i] == trace[i] && next[i + 1] == trace[i + 1]);
                            }
                        }
                        trace = next;
                        done = done + 1;
                    }
                    budget = budget - 1;
                },
            }
        }
    }

    /// The basic solution: for each variable column that has exactly one nonzero row,
    /// that row's right-hand side; zero for every other column.
    pub fn get_solution(&self) -> (solution: Vec<Rational>)
        requires
            self.wf(),
            self.rows >= 1,
            self.cols >= 1,
        ensures
            solution@.len() == self.cols - 1,
            forall|c: int, r: int|
                0 <= c < self.cols - 1 && #[trigger] self.sole_nonzero(c, r) ==> solution@[c]
                    == self.cell(r, self.rhs()),
            forall|c: int|
                0 <= c < self.cols - 1 && !self.is_basic(c) ==> #[trigger] solution@[c]
                    == Rational::zero_spec(),
    {
        let rows = self.rows;
        let cols = self.cols;
        let rhs = cols - 1;
        let mut solution: Vec<Rational> = Vec::new();
        let mut c: usize = 0;
        while c < rhs
            invariant
                self.wf(),
                rows == self.rows,
                cols == self.cols,
                rhs == self.rhs(),
                c <= rhs,
                solution@.len() == c,
                forall|cc: int, r: int|
                    0 <= cc < c && #[trigger] self.sole_nonzero(cc, r) ==> solution@[cc]
                        == self.cell(r, self.rhs()),
                forall|cc: int|
                    0 <= cc < c && !self.is_basic(cc) ==> #[trigger] solution@[cc]
                        == Rational::zero_spec(),
            decreases rhs - c,
        {
            let mut count: usize = 0;
            let mut found: usize = 0;
            let mut val = Rational::zero();
            let ghost mut second: int = 0;
            let mut r: usize = 0;
            while r < rows
                invariant
                    self.wf(),
                    rows == self.rows,
                    cols == self.cols,
                    rhs == self.rhs(),
                    c < rhs,
                    r <= rows,
                    count <= 2,
                    count == 0 ==> forall|k: int|
                        0 <= k < r ==> #[trigger] self.cell(k, c as int).num == 0,
                    count >= 1 ==> found < r && self.cell(found as int, c as int).num != 0,
                    count == 1 ==> val == self.cell(found as int, self.rhs()) && forall|k: int|
                        0 <= k < r && k != found ==> #[trigger] self.cell(k, c as int).num == 0,
                    count == 2 ==> 0 <= second < r && second != found && self.cell(
                        second,
                        c as int,
                    ).num != 0,
                decreases rows - r,
            {
                let x = self.get(r, c);
                if !x.is_zero() {
                    if count == 0 {
                        count = 1;
                        found = r;
                        val = self.get(r, rhs);
                    } else if count == 1 {
                        count = 2;
                        proof {
                            second = r as int;
                        }
                    }
                }
                r += 1;
            }
            let v = if count == 1 {
                val
            } else {
                Rational::zero()
            };
            proof {
                if count == 1 {
                    assert(self.sole_nonzero(c as int, found as int));
                } else {
                    assert forall|r: int| !#[trigger] self.sole_nonzero(c as int, r) by {
                        if count == 2 && self.sole_nonzero(c as int, r) {
                            assert(self.cell(found as int, c as int).num != 0);
                            assert(self.cell(second, c as int).num != 0);
                        }
                    }
                }
            }
            let ghost before = solution@;
            solution.push(v);
            proof {
                assert forall|cc: int, r: int|
                    0 <= cc < c + 1 && #[trigger] self.sole_nonzero(cc, r) implies solution@[cc]
                    == self.cell(r, self.rhs()) by {
                    if cc == c {
                        assert(self.cell(found as int, c as int).num != 0);
                    } else {
                        assert(solution@[cc] == before[cc]);
                    }
                }
                assert forall|cc: int|
                    0 <= cc < c + 1 && !self.is_basic(cc) implies #[trigger] solution@[cc]
                    == Rational::zero_spec() by {
                    if cc == c {
                        if count == 1 {
                            assert(self.sole_nonzero(c as int, found as int));
                        }
                    } else {
                        assert(solution@[cc] == before[cc]);
                    }
                }
            }
            c += 1;
        }
        solution
    }

    /// A partial check: false when some non-objective row holds the value one in two of
    /// its first `num_vars - 1` columns. It does not prove that the tableau is feasible.
    pub fn check_if_we_have_a_solution(&self, num_vars: usize) -> (r: bool)
        requires
            self.wf(),
            self.rows >= 1,
            num_vars >= 1,
            num_vars - 1 <= self.cols,
        ensures
            r == forall|k: int|
                0 <= k < self.rows - 1 ==> !#[trigger] self.repeated_one(k, num_vars - 1),
    {
        let n = num_vars - 1;
        let mut i: usize = 0;
        while i < self.rows - 1
            invariant
                self.wf(),
                self.rows >= 1,
                n == num_vars - 1,
                n <= self.cols,
                i <= self.rows - 1,
                forall|k: int| 0 <= k < i ==> !#[trigger] self.repeated_one(k, n as int),
            decreases self.rows - 1 - i,
        {
            let mut count: usize = 0;
            let mut first: usize = 0;
            let mut j: usize = 0;
            while j < n
                invariant
                    self.wf(),
                    self.rows >= 1,
                    n == num_vars - 1,
                    n <= self.cols,
                    i < self.rows - 1,
                    j <= n,
                    count <= 1,
                    count == 0 ==> forall|c: int| 0 <= c < j ==> !#[trigger] self.one_at(i as int, c),
                    count == 1 ==> first < j && self.one_at(i as int, first as int) && forall|c: int|
                        0 <= c < j && c != first ==> !#[trigger] self.one_at(i as int, c),
                decreases n - j,
            {
                if self.get(i, j).is_one() {
                    if count == 1 {
                        proof {
                            assert(self.one_at(i as int, first as int) && self.one_at(
                                i as int,
                                j as int,
                            ));
                            assert(self.repeated_one(i as int, n as int));
                        }
                        return false;
                    }
                    count = 1;
                    first = j;
                }
                j += 1;
            }
            proof {
                if self.repeated_one(i as int, n as int) {
                    let (c1, c2) = choose|c1: int, c2: int|
                        #![trigger self.one_at(i as int, c1), self.one_at(i as int, c2)]
                        0 <= c1 < c2 < n && self.one_at(i as int, c1) && self.one_at(i as int, c2);
                    assert(!self.one_at(i as int, c1) || !self.one_at(i as int, c2));
                }
            }
            i += 1;
        }
        true
    }
}

} // verus!
