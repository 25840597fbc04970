//! Cascades from a single seed: grains are handed to an inner cell, and whatever
//! that cell sheds is handed on to its neighbours, until nothing is left to
//! hand on. The grains on their way are kept on a work list, last in first
//! out, so that the cells are visited in the order left, up, right, down,
//! each with all that follows from it before the next.

use vstd::prelude::*;
use crate::grid::{credit_cell, lemma_grains_counts, read_cell, write_cell};
use crate::model::{
    counts, credit, inside, lemma_cell_in_mass, lemma_mass_counts, lemma_mass_credit,
    lemma_mass_update, lemma_pos, mass, pos, stable,
};
use crate::laws::{border_kept, lemma_run_sink};
use crate::sandpile::Sandpile;

verus! {

/// Grains on their way to the cell `(x, y)`.
pub struct Pending {
    pub amount: usize,
    pub x: usize,
    pub y: usize,
}

/// The state of a cascade: the grid, the work list with the next item last,
/// the two counters, and the grains that the border has swallowed so far.
pub struct Cascade {
    pub grains: Seq<int>,
    pub pending: Seq<Pending>,
    pub steps: int,
    pub topples: int,
    pub absorbed: int,
}

/// The item of `amount` grains bound for `(x, y)`.
pub open spec fn parcel(amount: int, x: int, y: int) -> Pending {
    Pending { amount: amount as usize, x: x as usize, y: y as usize }
}

/// No inner cell holds four grains or more, but perhaps `(x0, y0)`.
pub open spec fn calm_but(g: Seq<int>, cols: int, rows: int, x0: int, y0: int) -> bool {
    forall|x: int, y: int|
        inside(cols, rows, x, y) && !(x == x0 && y == y0) ==> #[trigger] g[pos(cols, x, y)] < 4
}

/// The inner coordinate before `x` on an axis of `n` cells, the border
/// included. On a torus the inner cells wrap: before the first comes the
/// last. Else before the first comes the border.
pub open spec fn before(n: int, x: int, torus: bool) -> int {
    if torus && x == 1 {
        n - 2
    } else {
        x - 1
    }
}

/// The inner coordinate after `x` on an axis of `n` cells, the border
/// included. On a torus after the last inner cell comes the first.
pub open spec fn after(n: int, x: int, torus: bool) -> int {
    if torus && x == n - 2 {
        1
    } else {
        x + 1
    }
}

/// The grains on a work list.
pub open spec fn parcels(s: Seq<Pending>) -> int
    decreases s.len(),
{
    if s.len() == 0 {
        0
    } else {
        parcels(s.drop_last()) + s.last().amount
    }
}

/// One step of a cascade: the last item of the work list is taken off and
/// its grains are added to its cell where that lies inside the border; sent
/// to the border or beyond, they are gone. A cell that then
/// holds four grains or more sheds every full set of four, and what it sheds
/// is put on the list for its neighbours, the left one to be served first,
/// then up, right and down.
pub open spec fn advance(c: Cascade, cols: int, rows: int, torus: bool) -> Cascade {
    let item = c.pending.last();
    let rest = c.pending.drop_last();
    let x = item.x as int;
    let y = item.y as int;
    if !inside(cols, rows, x, y) {
        Cascade {
            grains: c.grains,
            pending: rest,
            steps: c.steps + 1,
            topples: c.topples,
            absorbed: c.absorbed + item.amount,
        }
    } else {
        let p = pos(cols, x, y);
        let g1 = credit(c.grains, p, item.amount as int);
        let v = g1[p];
        if v >= 4 {
            let m = v / 4;
            Cascade {
                grains: g1.update(p, v - 4 * m),
                pending: rest.push(parcel(m, x, after(rows, y, torus))).push(
                    parcel(m, after(cols, x, torus), y),
                ).push(parcel(m, x, before(rows, y, torus))).push(
                    parcel(m, before(cols, x, torus), y),
                ),
                steps: c.steps + 1,
                topples: c.topples + 1,
                absorbed: c.absorbed,
            }
        } else {
            Cascade {
                grains: g1,
                pending: rest,
                steps: c.steps + 1,
                topples: c.topples,
                absorbed: c.absorbed,
            }
        }
    }
}

/// A cascade is over when nothing is left on the work list. It also stops
/// where a counter has reached the largest number that it can hold.
pub open spec fn halted(c: Cascade) -> bool {
    c.pending.len() == 0 || c.steps >= usize::MAX || c.topples >= usize::MAX
}

/// The state after at most `fuel` steps, or fewer where the cascade halts.
pub open spec fn run(c: Cascade, cols: int, rows: int, torus: bool, fuel: nat) -> Cascade
    decreases fuel,
{
    if fuel == 0 || halted(c) {
        c
    } else {
        run(advance(c, cols, rows, torus), cols, rows, torus, (fuel - 1) as nat)
    }
}

/// The state in which a cascade starts: `value` grains on their way to
/// `(x, y)`.
pub open spec fn seeded(
    g: Seq<int>,
    value: int,
    x: int,
    y: int,
    steps: int,
    topples: int,
) -> Cascade {
    Cascade {
        grains: g,
        pending: seq![parcel(value, x, y)],
        steps: steps,
        topples: topples,
        absorbed: 0,
    }
}

/// While a cascade has not halted, one more unit of fuel is one more step.
proof fn lemma_run_step(c: Cascade, cols: int, rows: int, torus: bool, fuel: nat)
    requires
        !halted(run(c, cols, rows, torus, fuel)),
    ensures
        run(c, cols, rows, torus, fuel + 1) == advance(
            run(c, cols, rows, torus, fuel),
            cols,
            rows,
            torus,
        ),
    decreases fuel,
{
    if fuel > 0 {
        lemma_run_step(advance(c, cols, rows, torus), cols, rows, torus, (fuel - 1) as nat);
    } else {
        assert(run(advance(c, cols, rows, torus), cols, rows, torus, 0) == advance(
            c,
            cols,
            rows,
            torus,
        ));
    }
}

/// Once a cascade has halted, more fuel changes nothing.
pub proof fn lemma_run_halted(c: Cascade, cols: int, rows: int, torus: bool, n: nat, m: nat)
    requires
        halted(run(c, cols, rows, torus, n)),
        n <= m,
    ensures
        run(c, cols, rows, torus, m) == run(c, cols, rows, torus, n),
    decreases n,
{
    if !halted(c) {
        lemma_run_halted(
            advance(c, cols, rows, torus),
            cols,
            rows,
            torus,
            (n - 1) as nat,
            (m - 1) as nat,
        );
    }
}

/// A work list of one item holds the grains of that item.
pub proof fn lemma_parcels_one(p: Pending)
    ensures
        parcels(seq![p]) == p.amount,
{
    assert(seq![p] =~= Seq::<Pending>::empty().push(p));
    lemma_parcels_push(Seq::<Pending>::empty(), p);
}

/// A work list holds no negative number of grains.
pub proof fn lemma_parcels_nonneg(s: Seq<Pending>)
    ensures
        parcels(s) >= 0,
{
    lemma_parcels_bounds(s);
}

proof fn lemma_parcels_push(s: Seq<Pending>, p: Pending)
    ensures
        parcels(s.push(p)) == parcels(s) + p.amount,
{
    assert(s.push(p).drop_last() =~= s);
}

proof fn lemma_parcels_bounds(s: Seq<Pending>)
    ensures
        parcels(s) >= 0,
        s.len() > 0 ==> s.last().amount <= parcels(s),
    decreases s.len(),
{
    if s.len() > 0 {
        lemma_parcels_bounds(s.drop_last());
    }
}

/// Every item of a work list is bound for a cell inside the border.
pub open spec fn in_grid(s: Seq<Pending>, cols: int, rows: int) -> bool {
    forall|k: int|
        0 <= k < s.len() ==> inside(cols, rows, (#[trigger] s[k]).x as int, s[k].y as int)
}

/// All the grains that a cascade has to account for: those on the grid,
/// those on their way, and those that the border swallowed.
pub open spec fn holdings(c: Cascade) -> int {
    mass(c.grains) + parcels(c.pending) + c.absorbed
}

/// A state whose grains fit the grid and the machine.
pub open spec fn sound(c: Cascade, cols: int, rows: int, torus: bool) -> bool {
    &&& c.grains.len() == cols * rows
    &&& counts(c.grains)
    &&& cols <= usize::MAX
    &&& rows <= usize::MAX
    &&& (torus ==> in_grid(c.pending, cols, rows))
    &&& mass(c.grains) + parcels(c.pending) <= usize::MAX
}

/// One step of a cascade neither makes nor loses a grain, and on a torus
/// none is swallowed.
pub proof fn lemma_advance_conserves(c: Cascade, cols: int, rows: int, torus: bool)
    requires
        sound(c, cols, rows, torus),
        c.pending.len() > 0,
    ensures
        sound(advance(c, cols, rows, torus), cols, rows, torus),
        holdings(advance(c, cols, rows, torus)) == holdings(c),
        advance(c, cols, rows, torus).absorbed >= c.absorbed,
        torus ==> advance(c, cols, rows, torus).absorbed == c.absorbed,
{
    let item = c.pending.last();
    let rest = c.pending.drop_last();
    let x = item.x as int;
    let y = item.y as int;
    lemma_parcels_bounds(c.pending);
    lemma_parcels_bounds(rest);
    lemma_mass_counts(c.grains);
    assert(c.pending[c.pending.len() - 1] == item);
    if inside(cols, rows, x, y) {
        lemma_pos(cols, rows, x, y);
        let p = pos(cols, x, y);
        let g1 = credit(c.grains, p, item.amount as int);
        lemma_mass_credit(c.grains, p, item.amount as int);
        lemma_cell_in_mass(g1, p);
        let v = g1[p];
        if v >= 4 {
            let m = v / 4;
            lemma_mass_update(g1, p, v - 4 * m);
            let i1 = parcel(m, x, after(rows, y, torus));
            let i2 = parcel(m, after(cols, x, torus), y);
            let i3 = parcel(m, x, before(rows, y, torus));
            let i4 = parcel(m, before(cols, x, torus), y);
            lemma_parcels_push(rest, i1);
            lemma_parcels_push(rest.push(i1), i2);
            lemma_parcels_push(rest.push(i1).push(i2), i3);
            lemma_parcels_push(rest.push(i1).push(i2).push(i3), i4);
        }
    }
}

/// However long a cascade runs, it neither makes nor loses a grain, and on a
/// torus none is swallowed: the grid and the work list together hold what the
/// grid held at the start and what was sent.
pub proof fn lemma_run_conserves(c: Cascade, cols: int, rows: int, torus: bool, fuel: nat)
    requires
        sound(c, cols, rows, torus),
    ensures
        sound(run(c, cols, rows, torus, fuel), cols, rows, torus),
        holdings(run(c, cols, rows, torus, fuel)) == holdings(c),
        run(c, cols, rows, torus, fuel).absorbed >= c.absorbed,
        torus ==> run(c, cols, rows, torus, fuel).absorbed == c.absorbed,
        torus && run(c, cols, rows, torus, fuel).pending.len() == 0 ==> mass(
            run(c, cols, rows, torus, fuel).grains,
        ) == mass(c.grains) + parcels(c.pending),
    decreases fuel,
{
    if fuel > 0 && !halted(c) {
        lemma_advance_conserves(c, cols, rows, torus);
        lemma_run_conserves(advance(c, cols, rows, torus), cols, rows, torus, (fuel - 1) as nat);
    }
}

/// A step of a cascade leaves the cell that it served with less than four
/// grains: where no other inner cell held more, none does after it.
pub proof fn lemma_advance_calm(c: Cascade, cols: int, rows: int, torus: bool)
    requires
        sound(c, cols, rows, torus),
        c.pending.len() > 0,
        calm_but(c.grains, cols, rows, c.pending.last().x as int, c.pending.last().y as int),
    ensures
        stable(advance(c, cols, rows, torus).grains, cols, rows),
{
    let item = c.pending.last();
    let x0 = item.x as int;
    let y0 = item.y as int;
    let after_step = advance(c, cols, rows, torus).grains;
    if inside(cols, rows, x0, y0) {
        lemma_pos(cols, rows, x0, y0);
    }
    assert forall|x: int, y: int| inside(cols, rows, x, y) implies #[trigger] after_step[pos(
        cols,
        x,
        y,
    )] < 4 by {
        lemma_pos(cols, rows, x, y);
        if !(x == x0 && y == y0) {
            assert(c.grains[pos(cols, x, y)] < 4);
        }
    }
}

/// A cascade that starts where no inner cell but the one it is sent to holds
/// four grains or more leaves none that does, once it has taken a step: all
/// that is left to topple is on the work list.
pub proof fn lemma_run_calm(c: Cascade, cols: int, rows: int, torus: bool, fuel: nat)
    requires
        sound(c, cols, rows, torus),
        stable(c.grains, cols, rows) || (c.pending.len() > 0 && calm_but(
            c.grains,
            cols,
            rows,
            c.pending.last().x as int,
            c.pending.last().y as int,
        )),
    ensures
        stable(run(c, cols, rows, torus, fuel).grains, cols, rows) || run(
            c,
            cols,
            rows,
            torus,
            fuel,
        ) == c,
    decreases fuel,
{
    if fuel > 0 && !halted(c) {
        lemma_advance_calm(c, cols, rows, torus);
        lemma_advance_conserves(c, cols, rows, torus);
        lemma_run_calm(advance(c, cols, rows, torus), cols, rows, torus, (fuel - 1) as nat);
        let d = advance(c, cols, rows, torus);
        if run(d, cols, rows, torus, (fuel - 1) as nat) == d {
            assert(stable(run(c, cols, rows, torus, fuel).grains, cols, rows));
        }
    }
}

impl Sandpile {
    /// The state of a cascade on this pile with `pending` on the work list.
    pub open spec fn cascade_state(&self, pending: Seq<Pending>, absorbed: int) -> Cascade {
        Cascade {
            grains: self.grains(),
            pending: pending,
            steps: self.num_steps as int,
            topples: self.num_topples as int,
            absorbed: absorbed,
        }
    }

    /// `self` is what a cascade of `value` grains that ended in the state
    /// `end` has left of the pile `before`: the grid and the counters are
    /// those of `end`, where the cascade halted, after one step at least
    /// where the counters had room for one. The border is as it was. With both counters short of
    /// their limit it halted because the work list was used up. Every grain
    /// is accounted for: it is on the grid, still on the work list, or was
    /// swallowed by the border.
    pub open spec fn left_by(&self, before: &Sandpile, end: Cascade, value: usize) -> bool {
        &&& self.wf()
        &&& self.shaped_as(before)
        &&& self.grains() == end.grains
        &&& self.num_steps == end.steps
        &&& self.num_topples == end.topples
        &&& halted(end)
        &&& (self.num_steps < usize::MAX && self.num_topples < usize::MAX ==> end.pending.len()
            == 0)
        &&& end.absorbed >= 0
        &&& parcels(end.pending) >= 0
        &&& holdings(end) == mass(before.grains()) + value
        &&& border_kept(before.grains(), self.grains(), before.cols(), before.rows())
        &&& self.num_steps >= before.num_steps
        &&& (before.num_steps < usize::MAX && before.num_topples < usize::MAX ==> self.num_steps
            > before.num_steps)
    }

    /// The state in which a cascade of `value` grains sent to `(x, y)` ends
    /// on this pile.
    pub open spec fn cascade_end(&self, value: usize, x: usize, y: usize, torus: bool) -> Cascade {
        run(
            seeded(
                self.grains(),
                value as int,
                x as int,
                y as int,
                self.num_steps as int,
                self.num_topples as int,
            ),
            self.cols(),
            self.rows(),
            torus,
            (usize::MAX - self.num_steps) as nat,
        )
    }

    /// Sends `value` grains to the cell `(x, y)` of a grid whose border
    /// swallows grains, and lets the cascade run. Grains sent to a cell that
    /// is not inside the border are lost. The pile is marked as completely
    /// toppled as soon as the first grains have arrived, whether or not the
    /// cascade they set off has come to rest.
    pub fn topple(&mut self, value: usize, x: usize, y: usize)
        requires
            old(self).wf(),
            inside(old(self).cols(), old(self).rows(), x as int, y as int) ==> mass(
                old(self).grains(),
            ) + value <= usize::MAX,
        ensures
            final(self).left_by(old(self), old(self).cascade_end(value, x, y, false), value),
            final(self).is_completely_toppled == (old(self).is_completely_toppled || (inside(
                old(self).cols(),
                old(self).rows(),
                x as int,
                y as int,
            ) && old(self).num_steps < usize::MAX && old(self).num_topples < usize::MAX)),
            !inside(old(self).cols(), old(self).rows(), x as int, y as int) ==> final(self).grains() == old(self).grains(),
            calm_but(old(self).grains(), old(self).cols(), old(self).rows(), x as int, y as int)
                ==> final(self).num_steps == old(self).num_steps || stable(
                final(self).grains(),
                old(self).cols(),
                old(self).rows(),
            ),
    {
        let starts = self.num_steps < usize::MAX && self.num_topples < usize::MAX;
        let arrives = 1 <= x && x < self.x - 1 && 1 <= y && y < self.y - 1;
        self.cascade(value, x, y, false);
        if starts && arrives {
            self.is_completely_toppled = true;
        }
    }

    /// Sends `value` grains to the inner cell `(x, y)` of a grid whose inner
    /// cells wrap around: the first inner cell of a line is the neighbour of
    /// its last, and the first inner line of the last. The border is never
    /// written and no grain is lost. The pile is marked as completely
    /// toppled when the cascade has come to rest.
    pub fn topple_torus(&mut self, value: usize, x: usize, y: usize)
        requires
            old(self).wf(),
            inside(old(self).cols(), old(self).rows(), x as int, y as int),
            mass(old(self).grains()) + value <= usize::MAX,
        ensures
            final(self).left_by(old(self), old(self).cascade_end(value, x, y, true), value),
            old(self).cascade_end(value, x, y, true).absorbed == 0,
            final(self).is_completely_toppled == (old(self).is_completely_toppled || old(self).cascade_end(value, x, y, true).pending.len() == 0),
            calm_but(old(self).grains(), old(self).cols(), old(self).rows(), x as int, y as int)
                ==> final(self).num_steps == old(self).num_steps || stable(
                final(self).grains(),
                old(self).cols(),
                old(self).rows(),
            ),
    {
        let done = self.cascade(value, x, y, true);
        if done {
            self.is_completely_toppled = true;
        }
    }

    /// Lets the pile come to rest on the torus: as long as it is not marked
    /// as completely toppled and both counters have room, a cascade is run
    /// from the inner cell `(x, y)` without new grains. One cascade is
    /// enough: it ends with the pile marked or a counter at its limit. A
    /// pile that is marked, or whose counters have no room, is left as it is.
    pub fn settle_torus(&mut self, x: usize, y: usize)
        requires
            old(self).wf(),
            inside(old(self).cols(), old(self).rows(), x as int, y as int),
            mass(old(self).grains()) <= usize::MAX,
        ensures
            final(self).wf(),
            final(self).shaped_as(old(self)),
            old(self).is_completely_toppled || old(self).num_steps == usize::MAX || old(self).num_topples == usize::MAX ==> *final(self) == *old(self),
            !old(self).is_completely_toppled && old(self).num_steps < usize::MAX && old(self).num_topples < usize::MAX ==> {
                &&& final(self).left_by(old(self), old(self).cascade_end(0, x, y, true), 0)
                &&& old(self).cascade_end(0, x, y, true).absorbed == 0
                &&& final(self).is_completely_toppled == (old(self).cascade_end(
                    0,
                    x,
                    y,
                    true,
                ).pending.len() == 0)
                &&& (calm_but(
                    old(self).grains(),
                    old(self).cols(),
                    old(self).rows(),
                    x as int,
                    y as int,
                ) ==> stable(final(self).grains(), old(self).cols(), old(self).rows()))
            },
            final(self).is_completely_toppled || final(self).num_steps == usize::MAX || final(self).num_topples == usize::MAX,
            mass(final(self).grains()) <= mass(old(self).grains()),
            final(self).num_steps < usize::MAX && final(self).num_topples < usize::MAX ==> mass(
                final(self).grains(),
            ) == mass(old(self).grains()),
    {
        while !self.is_completely_toppled && self.num_steps < usize::MAX && self.num_topples
            < usize::MAX
            invariant
                self.wf(),
                self.shaped_as(old(self)),
                inside(self.cols(), self.rows(), x as int, y as int),
                mass(old(self).grains()) <= usize::MAX,
                *self == *old(self) || ({
                    &&& !old(self).is_completely_toppled
                    &&& old(self).num_steps < usize::MAX
                    &&& old(self).num_topples < usize::MAX
                    &&& self.left_by(old(self), old(self).cascade_end(0, x, y, true), 0)
                    &&& old(self).cascade_end(0, x, y, true).absorbed == 0
                    &&& self.is_completely_toppled == (old(self).cascade_end(
                        0,
                        x,
                        y,
                        true,
                    ).pending.len() == 0)
                    &&& (calm_but(
                        old(self).grains(),
                        old(self).cols(),
                        old(self).rows(),
                        x as int,
                        y as int,
                    ) ==> stable(self.grains(), old(self).cols(), old(self).rows()))
                }),
            decreases
                    (if self.is_completely_toppled || self.num_steps == usize::MAX
                        || self.num_topples == usize::MAX {
                        0int
                    } else {
                        1int
                    }),
        {
            self.topple_torus(0, x, y);
        }
    }

    /// Runs a cascade of `value` grains sent to `(x, y)` until it halts, and
    /// says whether the work list was used up.
    pub fn cascade(&mut self, value: usize, x: usize, y: usize, torus: bool) -> (done: bool)
        requires
            old(self).wf(),
            inside(old(self).cols(), old(self).rows(), x as int, y as int) ==> mass(
                old(self).grains(),
            ) + value <= usize::MAX,
            torus ==> inside(old(self).cols(), old(self).rows(), x as int, y as int),
        ensures
            final(self).left_by(old(self), old(self).cascade_end(value, x, y, torus), value),
            final(self).is_completely_toppled == old(self).is_completely_toppled,
            done == (old(self).cascade_end(value, x, y, torus).pending.len() == 0),
            torus ==> old(self).cascade_end(value, x, y, torus).absorbed == 0,
            !inside(old(self).cols(), old(self).rows(), x as int, y as int) ==> final(self).grains() == old(self).grains(),
            calm_but(old(self).grains(), old(self).cols(), old(self).rows(), x as int, y as int)
                ==> final(self).num_steps == old(self).num_steps || stable(
                final(self).grains(),
                old(self).cols(),
                old(self).rows(),
            ),
    {
        let ghost cols = self.cols();
        let ghost rows = self.rows();
        let ghost c0 = seeded(
            self.grains(),
            value as int,
            x as int,
            y as int,
            self.num_steps as int,
            self.num_topples as int,
        );
        let ghost budget = (usize::MAX - self.num_steps) as nat;
        proof {
            lemma_parcels_one(parcel(value as int, x as int, y as int));
        }
        if !(1 <= x && x < self.x - 1 && 1 <= y && y < self.y - 1) {
            // nothing arrives: the one item is taken off the list, if a step can be taken
            if self.num_steps < usize::MAX && self.num_topples < usize::MAX {
                proof {
                    lemma_run_step(c0, cols, rows, torus, 0);
                    assert(seq![parcel(value as int, x as int, y as int)].drop_last()
                        =~= Seq::<Pending>::empty());
                    lemma_run_halted(c0, cols, rows, torus, 1, budget);
                }
                self.num_steps += 1;
                return true;
            }
            return false;
        }
        let ghost total = mass(self.grains()) + value;
        let ghost mut n: nat = 0;
        let ghost mut absorbed: int = 0;
        let mut stack: Vec<Pending> = Vec::new();
        stack.push(Pending { amount: value, x, y });
        proof {
            assert(stack@ =~= seq![parcel(value as int, x as int, y as int)]);
        }
        while stack.len() > 0 && self.num_steps < usize::MAX && self.num_topples < usize::MAX
            invariant
                self.wf(),
                self.shaped_as(old(self)),
                self.is_completely_toppled == old(self).is_completely_toppled,
                cols == self.cols(),
                rows == self.rows(),
                self.cascade_state(stack@, absorbed) == run(c0, cols, rows, torus, n),
                n == self.num_steps - old(self).num_steps,
                n == 0 ==> stack@.len() == 1 && self.num_topples == old(self).num_topples,
                torus ==> in_grid(stack@, cols, rows),
                mass(self.grains()) + parcels(stack@) + absorbed == total <= usize::MAX,
                absorbed >= 0,
                torus ==> absorbed == 0,
            decreases usize::MAX - self.num_steps,
        {
            let ghost before_state = self.cascade_state(stack@, absorbed);
            proof {
                lemma_run_step(c0, cols, rows, torus, n);
                lemma_parcels_bounds(stack@);
                lemma_grains_counts(self.cells);
            }
            let item = stack.pop().unwrap();
            let ghost rest = stack@;
            self.num_steps += 1;
            let arrives = 1 <= item.x && item.x < self.x - 1 && 1 <= item.y && item.y < self.y
                - 1;
            if arrives {
                proof {
                    lemma_pos(cols, rows, item.x as int, item.y as int);
                }
                credit_cell(&mut self.cells, item.x, item.y, item.amount);
                let v = read_cell(&self.cells, item.x, item.y);
                if v >= 4 {
                    self.num_topples += 1;
                    let multiples = v / 4;
                    let ghost g1 = self.grains();
                    write_cell(&mut self.cells, item.x, item.y, v - 4 * multiples);
                    proof {
                        lemma_mass_update(
                            g1,
                            pos(cols, item.x as int, item.y as int),
                            v - 4 * multiples,
                        );
                    }
                    let left = if torus && item.x == 1 {
                        self.x - 2
                    } else {
                        item.x - 1
                    };
                    let up = if torus && item.y == 1 {
                        self.y - 2
                    } else {
                        item.y - 1
                    };
                    let right = if torus && item.x == self.x - 2 {
                        1
                    } else {
                        item.x + 1
                    };
                    let down = if torus && item.y == self.y - 2 {
                        1
                    } else {
                        item.y + 1
                    };
                    proof {
                        let s1 = rest.push(Pending { amount: multiples, x: item.x, y: down });
                        let s2 = s1.push(Pending { amount: multiples, x: right, y: item.y });
                        let s3 = s2.push(Pending { amount: multiples, x: item.x, y: up });
                        lemma_parcels_push(rest, Pending { amount: multiples, x: item.x, y: down });
                        lemma_parcels_push(s1, Pending { amount: multiples, x: right, y: item.y });
                        lemma_parcels_push(s2, Pending { amount: multiples, x: item.x, y: up });
                        lemma_parcels_push(s3, Pending { amount: multiples, x: left, y: item.y });
                    }
                    stack.push(Pending { amount: multiples, x: item.x, y: down });
                    stack.push(Pending { amount: multiples, x: right, y: item.y });
                    stack.push(Pending { amount: multiples, x: item.x, y: up });
                    stack.push(Pending { amount: multiples, x: left, y: item.y });
                }
            } else {
                proof {
                    absorbed = absorbed + item.amount;
                }
            }
            proof {
                n = n + 1;
                assert(self.cascade_state(stack@, absorbed) == advance(
                    before_state,
                    cols,
                    rows,
                    torus,
                ));
            }
        }
        proof {
            lemma_run_halted(c0, cols, rows, torus, n, budget);
            lemma_parcels_bounds(stack@);
            lemma_grains_counts(old(self).cells);
            lemma_run_sink(c0, cols, rows, torus, budget);
            if calm_but(old(self).grains(), cols, rows, x as int, y as int) {
                lemma_run_calm(c0, cols, rows, torus, budget);
            }
        }
        stack.len() == 0
    }
}

} // verus!
