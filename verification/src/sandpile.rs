//! The sandpile: a grid with a border of one cell around it, the probability
//! with which a grain topples, and the counters of a run.

use toodee::TooDee;
use vstd::prelude::*;
use crate::grid::{grains_of, grid_init, grid_ok, grid_size, lemma_grains_counts, write_cell};
use crate::model::{lemma_mass_update, lemma_mass_zero, lemma_pos, mass, pos};

verus! {

/// Probability one, in units of 2^-24.
pub const FULL_PROBABILITY: u32 = 16_777_216;

/// The probability that stands in for a request of zero or less: the least
/// number of units that is no less than a thousandth.
pub const LEAST_PROBABILITY: u32 = 16_778;

/// Why a request was turned down.
#[derive(Debug, Clone, Copy, PartialEq, Eq)]
pub enum ErrorKind {
    /// The value asked for lies outside the accepted range.
    ValueValidation,
}

/// A pile of sand on a grid. The cells of the grid are addressed by `(x, y)`
/// with `x < self.x` and `y < self.y`. The cells whose `x` or `y` is the
/// first or the last of its range are the border: it holds no sand of the
/// pile, and toppling never writes to it.
pub struct Sandpile {
    /// The range of the first coordinate, border included.
    pub x: usize,
    /// The range of the second coordinate, border included.
    pub y: usize,
    /// The grain counts.
    pub cells: TooDee<usize>,
    /// The probability to topple, in units of 2^-24.
    pub probability_to_topple: u32,
    /// Set by a step that found nothing to topple, and by a cascade.
    pub is_completely_toppled: bool,
    /// The cells visited so far.
    pub num_steps: usize,
    /// The topples so far.
    pub num_topples: usize,
}

impl Sandpile {
    /// The range of the first coordinate, border included.
    pub open spec fn cols(&self) -> int {
        self.x as int
    }

    /// The range of the second coordinate, border included.
    pub open spec fn rows(&self) -> int {
        self.y as int
    }

    /// The probability to topple, in units of 2^-24.
    pub open spec fn level(&self) -> u32 {
        self.probability_to_topple
    }

    /// The grain counts in the order of the storage: the cells that share
    /// `y` side by side, one `y` after the other.
    pub open spec fn grains(&self) -> Seq<int> {
        grains_of(self.cells)
    }

    /// The grid has the dimensions that the pile was made with, a border
    /// around it, and the probability lies in range.
    pub open spec fn wf(&self) -> bool {
        &&& grid_ok(self.cells)
        &&& grid_size(self.cells) == (self.cols() as nat, self.rows() as nat)
        &&& self.cols() >= 2
        &&& self.rows() >= 2
        &&& 1 <= self.level() <= FULL_PROBABILITY
    }

    /// The dimensions and the probability of `self` are those of `other`.
    pub open spec fn shaped_as(&self, other: &Sandpile) -> bool {
        &&& self.cols() == other.cols()
        &&& self.rows() == other.rows()
        &&& self.level() == other.level()
    }

    /// The number of inner cells.
    pub open spec fn inner_cells(&self) -> int {
        (self.cols() - 2) * (self.rows() - 2)
    }

    /// A pile of `x` by `y` inner cells, all empty, with a border of one cell
    /// around them, and probability one.
    pub fn new(x: usize, y: usize) -> (s: Self)
        requires
            x + 2 <= usize::MAX,
            y + 2 <= usize::MAX,
            (x + 2) * (y + 2) <= usize::MAX,
        ensures
            s.wf(),
            s.cols() == x + 2,
            s.rows() == y + 2,
            s.grains() == Seq::new(((x + 2) * (y + 2)) as nat, |i: int| 0int),
            mass(s.grains()) == 0,
            s.level() == FULL_PROBABILITY,
            !s.is_completely_toppled,
            s.num_steps == 0,
            s.num_topples == 0,
    {
        let x_offseted = x + 2;
        let y_offseted = y + 2;
        let s = Sandpile {
            x: x_offseted,
            y: y_offseted,
            cells: grid_init(x_offseted, y_offseted, 0),
            probability_to_topple: FULL_PROBABILITY,
            is_completely_toppled: false,
            num_steps: 0,
            num_topples: 0,
        };
        proof {
            assert(s.grains() =~= Seq::new(((x + 2) * (y + 2)) as nat, |i: int| 0int));
            lemma_mass_zero(((x + 2) * (y + 2)) as nat);
        }
        s
    }

    /// The probability to topple, in units of 2^-24.
    pub fn probability(&self) -> (p: u32)
        ensures
            p == self.level(),
    {
        self.probability_to_topple
    }

    /// Puts `value` grains in the inner cell `coordinate`, counted from the
    /// first inner cell.
    pub fn set_value_at(&mut self, value: usize, coordinate: (usize, usize))
        requires
            old(self).wf(),
            coordinate.0 < old(self).cols() - 2,
            coordinate.1 < old(self).rows() - 2,
        ensures
            final(self).wf(),
            final(self).shaped_as(old(self)),
            final(self).grains() == old(self).grains().update(
                pos(old(self).cols(), coordinate.0 + 1, coordinate.1 + 1),
                value as int,
            ),
            mass(final(self).grains()) == mass(old(self).grains()) - old(self).grains()[pos(
                old(self).cols(),
                coordinate.0 + 1,
                coordinate.1 + 1,
            )] + value,
            final(self).is_completely_toppled == old(self).is_completely_toppled,
            final(self).num_steps == old(self).num_steps,
            final(self).num_topples == old(self).num_topples,
    {
        proof {
            lemma_pos(self.cols(), self.rows(), coordinate.0 + 1, coordinate.1 + 1);
            lemma_grains_counts(self.cells);
            lemma_mass_update(
                self.grains(),
                pos(self.cols(), coordinate.0 + 1, coordinate.1 + 1),
                value as int,
            );
        }
        write_cell(&mut self.cells, coordinate.0 + 1, coordinate.1 + 1, value);
    }

    /// Sets the probability to topple, in units of 2^-24. A value in
    /// `1..=FULL_PROBABILITY` is taken as it is. Any other is refused: zero or
    /// less leaves `LEAST_PROBABILITY`, more than one leaves `FULL_PROBABILITY`.
    pub fn set_probailitiy(&mut self, value: i64) -> (res: Result<(), ErrorKind>)
        ensures
            final(self).cols() == old(self).cols(),
            final(self).rows() == old(self).rows(),
            final(self).cells == old(self).cells,
            final(self).is_completely_toppled == old(self).is_completely_toppled,
            final(self).num_steps == old(self).num_steps,
            final(self).num_topples == old(self).num_topples,
            old(self).wf() ==> final(self).wf(),
            res is Ok <==> 0 < value <= FULL_PROBABILITY,
            res is Err ==> res == Err::<(), ErrorKind>(ErrorKind::ValueValidation),
            value <= 0 ==> final(self).level() == LEAST_PROBABILITY,
            0 < value <= FULL_PROBABILITY ==> final(self).level() == value,
            value > FULL_PROBABILITY ==> final(self).level() == FULL_PROBABILITY,
    {
        if value <= 0 {
            self.probability_to_topple = LEAST_PROBABILITY;
            Err(ErrorKind::ValueValidation)
        } else if value <= 16_777_216 {
            self.probability_to_topple = value as u32;
            Ok(())
        } else {
            self.probability_to_topple = FULL_PROBABILITY;
            Err(ErrorKind::ValueValidation)
        }
    }

    /// Empties every cell, border included, and clears the flag. The counters
    /// stay.
    pub fn reset(&mut self)
        requires
            old(self).wf(),
        ensures
            final(self).wf(),
            final(self).shaped_as(old(self)),
            final(self).grains() == Seq::new(old(self).grains().len(), |i: int| 0int),
            mass(final(self).grains()) == 0,
            !final(self).is_completely_toppled,
            final(self).num_steps == old(self).num_steps,
            final(self).num_topples == old(self).num_topples,
    {
        let ghost cols = self.cols();
        let ghost rows = self.rows();
        proof {
            lemma_grains_counts(self.cells);
        }
        let mut j: usize = 0;
        while j < self.y
            invariant
                self.wf(),
                self.shaped_as(old(self)),
                cols == self.cols(),
                rows == self.rows(),
                self.is_completely_toppled == old(self).is_completely_toppled,
                self.num_steps == old(self).num_steps,
                self.num_topples == old(self).num_topples,
                0 <= j <= rows,
                self.grains().len() == cols * rows,
                forall|k: int| 0 <= k < j * cols ==> #[trigger] self.grains()[k] == 0,
            decreases self.y - j,
        {
            let mut i: usize = 0;
            while i < self.x
                invariant
                    self.wf(),
                    self.shaped_as(old(self)),
                    cols == self.cols(),
                    rows == self.rows(),
                    self.is_completely_toppled == old(self).is_completely_toppled,
                    self.num_steps == old(self).num_steps,
                    self.num_topples == old(self).num_topples,
                    0 <= j < rows,
                    0 <= i <= cols,
                    self.grains().len() == cols * rows,
                    forall|k: int| 0 <= k < j * cols + i ==> #[trigger] self.grains()[k] == 0,
                decreases self.x - i,
            {
                proof {
                    lemma_pos(cols, rows, i as int, j as int);
                }
                let ghost before = self.grains();
                write_cell(&mut self.cells, i, j, 0);
                assert forall|k: int| 0 <= k < j * cols + i + 1 implies #[trigger] self.grains()[k]
                    == 0 by {
                    if k < j * cols + i {
                        assert(before[k] == 0);
                    }
                }
                i += 1;
            }
            proof {
                assert((j + 1) * cols == j * cols + cols) by (nonlinear_arith);
            }
            j += 1;
        }
        self.is_completely_toppled = false;
        proof {
            lemma_grains_counts(old(self).cells);
            assert(j * cols == cols * rows) by (nonlinear_arith)
                requires
                    j == rows,
            ;
            assert(self.grains() =~= Seq::new(old(self).grains().len(), |i: int| 0int));
            lemma_mass_zero(old(self).grains().len());
        }
    }
}

} // verus!
