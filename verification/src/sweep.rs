//! Sweeps: one pass over the inner cells, line after line, that topples each
//! cell once, either by the plain rule or grain by grain at random.

use rand::rngs::ThreadRng;
use vstd::arithmetic::div_mod::lemma_fundamental_div_mod_converse;
use vstd::prelude::*;
use crate::grid::{give_cell, lemma_grains_counts, read_cell, shed_cell, write_cell};
use crate::laws::{
    border_kept, lemma_potential_counts, lemma_relax_effect, lemma_scatter_effect,
    lemma_stable_sweep_if, lemma_sweep_potential, lemma_sweep_sink, lemma_sweeps_more,
    lemma_sweeps_sink, lemma_sweeps_topples_more, potential, sweeps, sweeps_topples,
};
use crate::model::{
    chosen, credit, inside, lemma_mass_credit, lemma_pos, lemma_scatter_upto_push, lemma_visited,
    line_lost, line_topples, lines_lost, lines_topples, mass, passes, pos, relax, relax_lost,
    scatter, scatter_drawn, scatter_sweep, scatter_upto, stable, sweep, sweep_line, sweep_lines,
    sweep_lost, sweep_topples, visited,
};
use crate::random::{draw_samples, thread_source};
use crate::sandpile::{Sandpile, FULL_PROBABILITY};

verus! {

impl Sandpile {
    /// Nothing but the grid and the count of topples differs between `self`
    /// and `other`.
    pub open spec fn settled_as(&self, other: &Sandpile) -> bool {
        &&& self.shaped_as(other)
        &&& self.is_completely_toppled == other.is_completely_toppled
        &&& self.num_steps == other.num_steps
    }

    /// Applies the toppling rule to the inner cell `(x, y)` and says whether
    /// it toppled: a cell of eight grains or more sheds every full set of
    /// four at once, one of four to seven sheds four. Neighbours inside the
    /// border get what is shed; the border gets nothing.
    pub fn relax_cell(&mut self, x: usize, y: usize) -> (toppled: bool)
        requires
            old(self).wf(),
            inside(old(self).cols(), old(self).rows(), x as int, y as int),
            mass(old(self).grains()) <= usize::MAX,
            old(self).num_topples < usize::MAX,
        ensures
            final(self).wf(),
            final(self).settled_as(old(self)),
            final(self).grains() == relax(
                old(self).grains(),
                old(self).cols(),
                old(self).rows(),
                x as int,
                y as int,
            ),
            mass(final(self).grains()) + relax_lost(
                old(self).grains(),
                old(self).cols(),
                old(self).rows(),
                x as int,
                y as int,
            ) == mass(old(self).grains()),
            border_kept(
                old(self).grains(),
                final(self).grains(),
                old(self).cols(),
                old(self).rows(),
            ),
            mass(final(self).grains()) <= mass(old(self).grains()),
            toppled == (old(self).grains()[pos(old(self).cols(), x as int, y as int)] >= 4),
            final(self).num_topples == old(self).num_topples + if toppled { 1int } else { 0int },
    {
        proof {
            lemma_grains_counts(self.cells);
            lemma_relax_effect(self.grains(), self.cols(), self.rows(), x as int, y as int);
        }
        let v = read_cell(&self.cells, x, y);
        if v >= 8 {
            self.num_topples += 1;
            let multiples = v / 4;
            shed_cell(&mut self.cells, self.x, self.y, x, y, multiples);
            true
        } else if v > 3 {
            self.num_topples += 1;
            shed_cell(&mut self.cells, self.x, self.y, x, y, 1);
            true
        } else {
            false
        }
    }

    /// Takes one grain from the inner cell `(x, y)`, which holds four or
    /// more, for each neighbour whose sample passes under the probability to
    /// topple. The samples stand for left, up, right and down. A neighbour
    /// inside the border gets its grain; one sent to the border is gone.
    pub fn scatter_cell(&mut self, x: usize, y: usize, samples: [u32; 4])
        requires
            old(self).wf(),
            inside(old(self).cols(), old(self).rows(), x as int, y as int),
            old(self).grains()[pos(old(self).cols(), x as int, y as int)] >= 4,
            mass(old(self).grains()) <= usize::MAX,
        ensures
            final(self).wf(),
            final(self).settled_as(old(self)),
            final(self).num_topples == old(self).num_topples,
            final(self).grains() == scatter(
                old(self).grains(),
                old(self).cols(),
                old(self).rows(),
                x as int,
                y as int,
                passes(samples[0], old(self).level()),
                passes(samples[1], old(self).level()),
                passes(samples[2], old(self).level()),
                passes(samples[3], old(self).level()),
            ),
            final(self).grains() == scatter_drawn(
                old(self).grains(),
                old(self).cols(),
                old(self).rows(),
                x as int,
                y as int,
                old(self).level(),
                samples,
            ),
            border_kept(
                old(self).grains(),
                final(self).grains(),
                old(self).cols(),
                old(self).rows(),
            ),
            mass(final(self).grains()) <= mass(old(self).grains()),
    {
        let ghost cols = self.cols();
        let ghost rows = self.rows();
        let ghost g_in = self.grains();
        let level = self.probability_to_topple;
        proof {
            lemma_grains_counts(self.cells);
            lemma_scatter_effect(
                g_in,
                cols,
                rows,
                x as int,
                y as int,
                passes(samples[0], level),
                passes(samples[1], level),
                passes(samples[2], level),
                passes(samples[3], level),
            );
        }
        let left = samples[0] / 256 < level;
        let up = samples[1] / 256 < level;
        let right = samples[2] / 256 < level;
        let down = samples[3] / 256 < level;
        let mut moved_grain_counter: usize = 0;
        if left {
            moved_grain_counter += 1;
        }
        if up {
            moved_grain_counter += 1;
        }
        if right {
            moved_grain_counter += 1;
        }
        if down {
            moved_grain_counter += 1;
        }
        assert(moved_grain_counter == chosen(left, up, right, down));
        proof {
            lemma_pos(cols, rows, x as int, y as int);
            lemma_mass_credit(g_in, pos(cols, x as int, y as int), -(moved_grain_counter as int));
        }
        let v = read_cell(&self.cells, x, y);
        write_cell(&mut self.cells, x, y, v - moved_grain_counter);
        assert(self.grains() == credit(
            g_in,
            pos(cols, x as int, y as int),
            -(moved_grain_counter as int),
        ));
        if left {
            give_cell(&mut self.cells, self.x, self.y, x - 1, y, 1);
        }
        if up {
            give_cell(&mut self.cells, self.x, self.y, x, y - 1, 1);
        }
        if right {
            give_cell(&mut self.cells, self.x, self.y, x + 1, y, 1);
        }
        if down {
            give_cell(&mut self.cells, self.x, self.y, x, y + 1, 1);
        }
    }

    /// One sweep by the plain rule. Says whether any cell toppled.
    pub fn sweep_plain(&mut self) -> (been_toppled: bool)
        requires
            old(self).wf(),
            mass(old(self).grains()) <= usize::MAX,
            old(self).num_steps + old(self).inner_cells() <= usize::MAX,
            old(self).num_topples + old(self).inner_cells() <= usize::MAX,
        ensures
            final(self).wf(),
            final(self).shaped_as(old(self)),
            final(self).is_completely_toppled == old(self).is_completely_toppled,
            final(self).grains() == sweep(old(self).grains(), old(self).cols(), old(self).rows()),
            mass(final(self).grains()) + sweep_lost(
                old(self).grains(),
                old(self).cols(),
                old(self).rows(),
            ) == mass(old(self).grains()),
            border_kept(
                old(self).grains(),
                final(self).grains(),
                old(self).cols(),
                old(self).rows(),
            ),
            mass(final(self).grains()) <= mass(old(self).grains()),
            0 <= sweep_topples(old(self).grains(), old(self).cols(), old(self).rows()) <= old(self).inner_cells(),
            been_toppled == !stable(old(self).grains(), old(self).cols(), old(self).rows()),
            !been_toppled ==> final(self).grains() == old(self).grains(),
            final(self).num_steps == old(self).num_steps + old(self).inner_cells(),
            final(self).num_topples == old(self).num_topples + sweep_topples(
                old(self).grains(),
                old(self).cols(),
                old(self).rows(),
            ),
    {
        let ghost cols = self.cols();
        let ghost rows = self.rows();
        let ghost g0 = self.grains();
        proof {
            lemma_grains_counts(self.cells);
            lemma_sweep_sink(g0, cols, rows);
        }
        let mut been_toppled = false;
        let mut i: usize = 1;
        while i < self.x - 1
            invariant
                self.wf(),
                self.shaped_as(old(self)),
                self.is_completely_toppled == old(self).is_completely_toppled,
                cols == self.cols(),
                rows == self.rows(),
                g0 == old(self).grains(),
                1 <= i <= cols - 1,
                self.grains() == sweep_lines(g0, cols, rows, i as int),
                mass(self.grains()) + lines_lost(g0, cols, rows, i as int) == mass(g0),
                mass(self.grains()) <= mass(g0) <= usize::MAX,
                old(self).num_steps + (cols - 2) * (rows - 2) <= usize::MAX,
                old(self).num_topples + (cols - 2) * (rows - 2) <= usize::MAX,
                self.num_steps == old(self).num_steps + visited(rows, i as int, 1),
                self.num_topples == old(self).num_topples + lines_topples(g0, cols, rows, i as int),
                0 <= lines_topples(g0, cols, rows, i as int) <= visited(rows, i as int, 1),
                !been_toppled ==> self.grains() == g0,
                !been_toppled ==> forall|x: int, y: int|
                    1 <= x < i && 1 <= y < rows - 1 ==> #[trigger] g0[pos(cols, x, y)] < 4,
                been_toppled ==> !stable(g0, cols, rows),
            decreases cols - i,
        {
            let ghost line0 = self.grains();
            proof {
                lemma_visited(cols, rows, i as int);
            }
            let mut j: usize = 1;
            while j < self.y - 1
                invariant
                    self.wf(),
                    self.shaped_as(old(self)),
                    self.is_completely_toppled == old(self).is_completely_toppled,
                    cols == self.cols(),
                    rows == self.rows(),
                    g0 == old(self).grains(),
                    1 <= i < cols - 1,
                    1 <= j <= rows - 1,
                    line0 == sweep_lines(g0, cols, rows, i as int),
                    self.grains() == sweep_line(line0, cols, rows, i as int, j as int),
                    mass(self.grains()) + lines_lost(g0, cols, rows, i as int) + line_lost(
                        line0,
                        cols,
                        rows,
                        i as int,
                        j as int,
                    ) == mass(g0),
                    mass(self.grains()) <= mass(g0) <= usize::MAX,
                    old(self).num_steps + (cols - 2) * (rows - 2) <= usize::MAX,
                    old(self).num_topples + (cols - 2) * (rows - 2) <= usize::MAX,
                    0 <= visited(rows, i as int, 1),
                    visited(rows, i as int, rows - 1) <= (cols - 2) * (rows - 2),
                    self.num_steps == old(self).num_steps + visited(rows, i as int, j as int),
                    self.num_topples == old(self).num_topples + lines_topples(
                        g0,
                        cols,
                        rows,
                        i as int,
                    ) + line_topples(line0, cols, rows, i as int, j as int),
                    0 <= lines_topples(g0, cols, rows, i as int) <= visited(rows, i as int, 1),
                    0 <= line_topples(line0, cols, rows, i as int, j as int) <= j - 1,
                    !been_toppled ==> self.grains() == g0,
                    !been_toppled ==> forall|x: int, y: int|
                        (1 <= x < i && 1 <= y < rows - 1) || (x == i && 1 <= y < j)
                            ==> #[trigger] g0[pos(cols, x, y)] < 4,
                    been_toppled ==> !stable(g0, cols, rows),
                decreases rows - j,
            {
                self.num_steps += 1;
                let toppled = self.relax_cell(i, j);
                if toppled {
                    been_toppled = true;
                }
                j += 1;
            }
            i += 1;
        }
        been_toppled
    }

    /// One sweep grain by grain: each inner cell that holds four grains or
    /// more when its turn comes sends one grain towards each neighbour for
    /// which a fresh sample from `rng` passes under the probability to
    /// topple. Says whether any cell held four grains or more.
    pub fn sweep_random(&mut self, rng: &mut ThreadRng) -> (been_toppled: bool)
        requires
            old(self).wf(),
            mass(old(self).grains()) <= usize::MAX,
        ensures
            final(self).wf(),
            final(self).settled_as(old(self)),
            final(self).num_topples == old(self).num_topples,
            exists|draws: Seq<[u32; 4]>|
                draws.len() == old(self).inner_cells() && final(self).grains() == #[trigger] scatter_sweep(
                    old(self).grains(),
                    old(self).cols(),
                    old(self).rows(),
                    old(self).level(),
                    draws,
                ),
            border_kept(
                old(self).grains(),
                final(self).grains(),
                old(self).cols(),
                old(self).rows(),
            ),
            mass(final(self).grains()) <= mass(old(self).grains()),
            been_toppled == !stable(old(self).grains(), old(self).cols(), old(self).rows()),
            !been_toppled ==> final(self).grains() == old(self).grains(),
    {
        let ghost cols = self.cols();
        let ghost rows = self.rows();
        let ghost g0 = self.grains();
        let ghost level = self.level();
        let ghost mut draws: Seq<[u32; 4]> = Seq::empty();
        let idle: [u32; 4] = [0, 0, 0, 0];
        let mut been_toppled = false;
        let mut i: usize = 1;
        while i < self.x - 1
            invariant
                self.wf(),
                self.settled_as(old(self)),
                self.num_topples == old(self).num_topples,
                cols == self.cols(),
                rows == self.rows(),
                level == self.level(),
                1 <= i <= cols - 1,
                draws.len() == visited(rows, i as int, 1),
                self.grains() == scatter_upto(g0, cols, rows, level, draws, draws.len() as int),
                border_kept(g0, self.grains(), cols, rows),
                mass(self.grains()) <= mass(g0) <= usize::MAX,
                !been_toppled ==> self.grains() == g0,
                !been_toppled ==> forall|x: int, y: int|
                    1 <= x < i && 1 <= y < rows - 1 ==> #[trigger] g0[pos(cols, x, y)] < 4,
                been_toppled ==> !stable(g0, cols, rows),
            decreases cols - i,
        {
            proof {
                lemma_visited(cols, rows, i as int);
            }
            let mut j: usize = 1;
            while j < self.y - 1
                invariant
                    self.wf(),
                    self.settled_as(old(self)),
                    self.num_topples == old(self).num_topples,
                    cols == self.cols(),
                    rows == self.rows(),
                    level == self.level(),
                    1 <= i < cols - 1,
                    1 <= j <= rows - 1,
                    draws.len() == visited(rows, i as int, j as int),
                    self.grains() == scatter_upto(g0, cols, rows, level, draws, draws.len() as int),
                    border_kept(g0, self.grains(), cols, rows),
                    mass(self.grains()) <= mass(g0) <= usize::MAX,
                    !been_toppled ==> self.grains() == g0,
                    !been_toppled ==> forall|x: int, y: int|
                        (1 <= x < i && 1 <= y < rows - 1) || (x == i && 1 <= y < j)
                            ==> #[trigger] g0[pos(cols, x, y)] < 4,
                    been_toppled ==> !stable(g0, cols, rows),
                decreases rows - j,
            {
                let ghost before = self.grains();
                let ghost mut used: [u32; 4] = idle;
                if read_cell(&self.cells, i, j) > 3 {
                    let samples = draw_samples(rng);
                    self.scatter_cell(i, j, samples);
                    proof {
                        used = samples;
                    }
                    been_toppled = true;
                }
                proof {
                    let k = draws.len() as int;
                    lemma_scatter_upto_push(g0, cols, rows, level, draws, used, k);
                    lemma_fundamental_div_mod_converse(k, rows - 2, i - 1, j - 1);
                    assert(self.grains() == scatter_drawn(
                        before,
                        cols,
                        rows,
                        i as int,
                        j as int,
                        level,
                        used,
                    ));
                    draws = draws.push(used);
                    assert(draws[k] == used);
                }
                j += 1;
            }
            i += 1;
        }
        proof {
            if cols > 2 {
                lemma_visited(cols, rows, cols - 2);
                assert(draws.len() == (cols - 2) * (rows - 2)) by (nonlinear_arith)
                    requires
                        draws.len() == (cols - 2 - 1) * (rows - 2) + (rows - 1 - 1),
                ;
            } else {
                assert(draws.len() == (cols - 2) * (rows - 2)) by (nonlinear_arith)
                    requires
                        cols == 2,
                        draws.len() == (1 - 1) * (rows - 2) + (1 - 1),
                ;
            }
            assert(self.grains() == scatter_sweep(g0, cols, rows, level, draws));
        }
        been_toppled
    }

    /// One step of the pile: a sweep by the plain rule where the probability
    /// to topple is one, else a sweep grain by grain with samples from the
    /// thread's generator. The pile is marked as completely toppled when no
    /// inner cell held four grains or more. The border is never written: the
    /// grains sent there leave the grid.
    pub fn topple_sandpile(&mut self)
        requires
            old(self).wf(),
            mass(old(self).grains()) <= usize::MAX,
            old(self).level() == FULL_PROBABILITY ==> old(self).num_steps + old(self).inner_cells()
                <= usize::MAX && old(self).num_topples + old(self).inner_cells() <= usize::MAX,
        ensures
            final(self).wf(),
            final(self).shaped_as(old(self)),
            border_kept(
                old(self).grains(),
                final(self).grains(),
                old(self).cols(),
                old(self).rows(),
            ),
            mass(final(self).grains()) <= mass(old(self).grains()),
            final(self).is_completely_toppled == (old(self).is_completely_toppled || stable(
                old(self).grains(),
                old(self).cols(),
                old(self).rows(),
            )),
            stable(old(self).grains(), old(self).cols(), old(self).rows()) ==> final(self).grains()
                == old(self).grains(),
            old(self).level() == FULL_PROBABILITY ==> {
                &&& final(self).grains() == sweep(
                    old(self).grains(),
                    old(self).cols(),
                    old(self).rows(),
                )
                &&& mass(final(self).grains()) + sweep_lost(
                    old(self).grains(),
                    old(self).cols(),
                    old(self).rows(),
                ) == mass(old(self).grains())
                &&& final(self).num_steps == old(self).num_steps + old(self).inner_cells()
                &&& final(self).num_topples == old(self).num_topples + sweep_topples(
                    old(self).grains(),
                    old(self).cols(),
                    old(self).rows(),
                )
                &&& 0 <= sweep_topples(old(self).grains(), old(self).cols(), old(self).rows())
                    <= old(self).inner_cells()
            },
            old(self).level() != FULL_PROBABILITY ==> {
                &&& final(self).num_steps == old(self).num_steps
                &&& final(self).num_topples == old(self).num_topples
                &&& exists|draws: Seq<[u32; 4]>|
                    draws.len() == old(self).inner_cells() && final(self).grains()
                        == #[trigger] scatter_sweep(
                        old(self).grains(),
                        old(self).cols(),
                        old(self).rows(),
                        old(self).level(),
                        draws,
                    )
            },
    {
        let been_toppled = if self.probability_to_topple == FULL_PROBABILITY {
            self.sweep_plain()
        } else {
            let mut rng = thread_source();
            self.sweep_random(&mut rng)
        };
        if !been_toppled {
            self.is_completely_toppled = true;
        }
    }

    /// Sweeps by the plain rule until the pile is marked as completely
    /// toppled, or until a counter has no room for one more sweep, and says
    /// how many sweeps it made. A sweep marks the pile when it finds the grid
    /// stable, so every sweep but the last found a cell to topple and
    /// lowered the potential of the grid by four at least: there are no more
    /// sweeps than a quarter of the potential and one.
    pub fn settle(&mut self) -> (calls: usize)
        requires
            old(self).wf(),
            old(self).level() == FULL_PROBABILITY,
            mass(old(self).grains()) <= usize::MAX,
        ensures
            final(self).wf(),
            final(self).shaped_as(old(self)),
            final(self).grains() == sweeps(
                old(self).grains(),
                old(self).cols(),
                old(self).rows(),
                calls as nat,
            ),
            final(self).num_steps == old(self).num_steps + calls * old(self).inner_cells(),
            final(self).num_topples == old(self).num_topples + sweeps_topples(
                old(self).grains(),
                old(self).cols(),
                old(self).rows(),
                calls as nat,
            ),
            calls == 0 ==> *final(self) == *old(self),
            old(self).is_completely_toppled ==> calls == 0,
            !old(self).is_completely_toppled && old(self).num_steps + old(self).inner_cells()
                <= usize::MAX && old(self).num_topples + old(self).inner_cells() <= usize::MAX
                ==> calls >= 1,
            forall|i: nat|
                i + 1 < calls ==> !stable(
                    #[trigger] sweeps(old(self).grains(), old(self).cols(), old(self).rows(), i),
                    old(self).cols(),
                    old(self).rows(),
                ),
            calls >= 1 ==> final(self).is_completely_toppled == stable(
                sweeps(
                    old(self).grains(),
                    old(self).cols(),
                    old(self).rows(),
                    (calls - 1) as nat,
                ),
                old(self).cols(),
                old(self).rows(),
            ),
            final(self).is_completely_toppled || final(self).num_steps + old(self).inner_cells()
                > usize::MAX || final(self).num_topples + old(self).inner_cells() > usize::MAX,
            border_kept(
                old(self).grains(),
                final(self).grains(),
                old(self).cols(),
                old(self).rows(),
            ),
            mass(final(self).grains()) <= mass(old(self).grains()),
            calls >= 1 && final(self).is_completely_toppled ==> stable(
                final(self).grains(),
                old(self).cols(),
                old(self).rows(),
            ) && 4 * (calls - 1) <= potential(
                old(self).grains(),
                old(self).cols(),
                old(self).rows(),
            ),
    {
        let ghost cols = self.cols();
        let ghost rows = self.rows();
        let ghost g0 = self.grains();
        let mut calls: usize = 0;
        let inner = match (self.x - 2).checked_mul(self.y - 2) {
            Some(n) => n,
            None => {
                assert(calls * self.inner_cells() == 0) by (nonlinear_arith)
                    requires
                        calls == 0,
                ;
                return 0;
            },
        };
        proof {
            lemma_grains_counts(self.cells);
            lemma_potential_counts(g0, cols, rows);
            lemma_sweeps_sink(g0, cols, rows, 0);
            assert(calls * inner == 0) by (nonlinear_arith)
                requires
                    calls == 0,
            ;
        }
        while !self.is_completely_toppled && self.num_steps <= usize::MAX - inner
            && self.num_topples <= usize::MAX - inner
            invariant
                self.wf(),
                self.shaped_as(old(self)),
                cols == self.cols(),
                rows == self.rows(),
                self.level() == FULL_PROBABILITY,
                inner == (cols - 2) * (rows - 2),
                g0 == old(self).grains(),
                self.grains() == sweeps(g0, cols, rows, calls as nat),
                self.grains().len() == cols * rows,
                self.num_steps == old(self).num_steps + calls * inner,
                self.num_topples == old(self).num_topples + sweeps_topples(
                    g0,
                    cols,
                    rows,
                    calls as nat,
                ),
                border_kept(g0, self.grains(), cols, rows),
                mass(self.grains()) <= mass(g0) <= usize::MAX,
                old(self).is_completely_toppled ==> calls == 0,
                calls == 0 ==> *self == *old(self),
                forall|i: nat|
                    i + 1 < calls ==> !stable(#[trigger] sweeps(g0, cols, rows, i), cols, rows),
                calls >= 1 ==> self.is_completely_toppled == stable(
                    sweeps(g0, cols, rows, (calls - 1) as nat),
                    cols,
                    rows,
                ),
                inner >= 1 ==> calls <= self.num_steps - old(self).num_steps,
                inner == 0 && !self.is_completely_toppled ==> calls == 0,
                !self.is_completely_toppled ==> 4 * calls + potential(self.grains(), cols, rows)
                    <= potential(g0, cols, rows),
                self.is_completely_toppled && calls >= 1 ==> stable(self.grains(), cols, rows)
                    && 4 * (calls - 1) <= potential(g0, cols, rows),
                potential(self.grains(), cols, rows) >= 0,
            decreases
                    potential(self.grains(), cols, rows) + (if self.is_completely_toppled {
                        0int
                    } else {
                        1int
                    }),
        {
            proof {
                lemma_grains_counts(self.cells);
                lemma_sweep_potential(self.grains(), cols, rows);
                lemma_sweep_sink(self.grains(), cols, rows);
                lemma_stable_sweep_if(self.grains(), cols, rows);
                lemma_sweeps_more(g0, cols, rows, calls as nat);
                lemma_sweeps_topples_more(g0, cols, rows, calls as nat);
                assert((calls + 1) * inner == calls * inner + inner) by (nonlinear_arith);
                if inner == 0 {
                    assert(cols == 2 || rows == 2) by (nonlinear_arith)
                        requires
                            (cols - 2) * (rows - 2) == 0,
                    ;
                    assert(stable(self.grains(), cols, rows));
                }
            }
            self.topple_sandpile();
            calls += 1;
        }
        calls
    }
}

} // verus!
