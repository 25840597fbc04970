//! What holds of the toppling rule and of sweeps, whatever the grid.

use vstd::arithmetic::div_mod::{lemma_fundamental_div_mod_converse, lemma_mod_bound};
use vstd::prelude::*;
use crate::cascade::{
    advance, calm_but, halted, lemma_advance_conserves, lemma_parcels_nonneg, lemma_parcels_one,
    lemma_run_conserves, parcel, parcels, run, seeded, sound, Cascade, Pending,
};
use crate::model::{
    chosen, counts, credit, give, inside, lemma_cell_in_mass, lemma_mass_credit, lemma_pos,
    line_lost, line_topples, lines_lost, lines_topples, mass, pos, relax, relax_lost, scatter,
    shed, spill, stable, sweep, sweep_line, sweep_lines, sweep_lost, sweep_topples,
};

verus! {

/// The unit rule, four grains out and one to each neighbour inside the
/// border, applied `k` times to the cell `(x, y)`.
pub open spec fn shed_units(g: Seq<int>, cols: int, rows: int, x: int, y: int, k: nat) -> Seq<int>
    decreases k,
{
    if k == 0 {
        g
    } else {
        shed(shed_units(g, cols, rows, x, y, (k - 1) as nat), cols, rows, x, y, 1)
    }
}

/// Shedding `k` sets of four grains at once leaves the grid that shedding
/// one set `k` times leaves.
pub proof fn lemma_bulk_is_units(g: Seq<int>, cols: int, rows: int, x: int, y: int, k: nat)
    requires
        g.len() == cols * rows,
        inside(cols, rows, x, y),
    ensures
        shed_units(g, cols, rows, x, y, k) == shed(g, cols, rows, x, y, k as int),
        shed_units(g, cols, rows, x, y, k).len() == g.len(),
    decreases k,
{
    lemma_pos(cols, rows, x, y);
    lemma_pos(cols, rows, x - 1, y);
    lemma_pos(cols, rows, x + 1, y);
    lemma_pos(cols, rows, x, y - 1);
    lemma_pos(cols, rows, x, y + 1);
    if k == 0 {
        assert(shed(g, cols, rows, x, y, 0) =~= g);
    } else {
        lemma_bulk_is_units(g, cols, rows, x, y, (k - 1) as nat);
        assert(shed(shed(g, cols, rows, x, y, k - 1), cols, rows, x, y, 1) =~= shed(
            g,
            cols,
            rows,
            x,
            y,
            k as int,
        ));
    }
}

/// A cell that holds `4 * k` grains and gets no others: the rule, which
/// sheds all of them at once, leaves the same grid as the unit rule applied
/// `k` times. The cell is left empty, and each neighbour inside the border
/// has `k` grains more.
pub proof fn lemma_rule_is_units(g: Seq<int>, cols: int, rows: int, x: int, y: int, k: nat)
    requires
        g.len() == cols * rows,
        inside(cols, rows, x, y),
        g[pos(cols, x, y)] == 4 * k,
    ensures
        relax(g, cols, rows, x, y) == shed_units(g, cols, rows, x, y, k),
        relax(g, cols, rows, x, y)[pos(cols, x, y)] == 0,
        relax(g, cols, rows, x, y)[pos(cols, x - 1, y)] == g[pos(cols, x - 1, y)] + if inside(
            cols,
            rows,
            x - 1,
            y,
        ) { k as int } else { 0int },
        relax(g, cols, rows, x, y)[pos(cols, x, y - 1)] == g[pos(cols, x, y - 1)] + if inside(
            cols,
            rows,
            x,
            y - 1,
        ) { k as int } else { 0int },
        relax(g, cols, rows, x, y)[pos(cols, x + 1, y)] == g[pos(cols, x + 1, y)] + if inside(
            cols,
            rows,
            x + 1,
            y,
        ) { k as int } else { 0int },
        relax(g, cols, rows, x, y)[pos(cols, x, y + 1)] == g[pos(cols, x, y + 1)] + if inside(
            cols,
            rows,
            x,
            y + 1,
        ) { k as int } else { 0int },
{
    lemma_bulk_is_units(g, cols, rows, x, y, k);
    lemma_pos(cols, rows, x, y);
    lemma_pos(cols, rows, x - 1, y);
    lemma_pos(cols, rows, x + 1, y);
    lemma_pos(cols, rows, x, y - 1);
    lemma_pos(cols, rows, x, y + 1);
    if k == 0 {
        assert(shed(g, cols, rows, x, y, 0) =~= g);
    }
}

proof fn lemma_quiet_line(g: Seq<int>, cols: int, rows: int, x: int, until: int)
    requires
        stable(g, cols, rows),
        1 <= x < cols - 1,
        until <= rows - 1,
    ensures
        sweep_line(g, cols, rows, x, until) == g,
        line_topples(g, cols, rows, x, until) == 0,
        line_lost(g, cols, rows, x, until) == 0,
    decreases until,
{
    if until > 1 {
        lemma_quiet_line(g, cols, rows, x, until - 1);
        assert(inside(cols, rows, x, until - 1));
    }
}

proof fn lemma_quiet_lines(g: Seq<int>, cols: int, rows: int, until: int)
    requires
        stable(g, cols, rows),
        until <= cols - 1,
    ensures
        sweep_lines(g, cols, rows, until) == g,
        lines_topples(g, cols, rows, until) == 0,
        lines_lost(g, cols, rows, until) == 0,
    decreases until,
{
    if until > 1 {
        lemma_quiet_lines(g, cols, rows, until - 1);
        lemma_quiet_line(g, cols, rows, until - 1, rows - 1);
    }
}

/// A sweep over a stable grid changes no cell, topples none and loses no
/// grain.
pub proof fn lemma_stable_sweep(g: Seq<int>, cols: int, rows: int)
    requires
        stable(g, cols, rows),
    ensures
        sweep(g, cols, rows) == g,
        sweep_topples(g, cols, rows) == 0,
        sweep_lost(g, cols, rows) == 0,
        stable(sweep(g, cols, rows), cols, rows),
{
    lemma_quiet_lines(g, cols, rows, cols - 1);
}


proof fn lemma_line_before(g: Seq<int>, cols: int, rows: int, x: int, until: int)
    requires
        forall|y: int| 1 <= y < until ==> #[trigger] g[pos(cols, x, y)] < 4,
    ensures
        sweep_line(g, cols, rows, x, until) == g,
        line_topples(g, cols, rows, x, until) == 0,
        line_lost(g, cols, rows, x, until) == 0,
    decreases until,
{
    if until > 1 {
        lemma_line_before(g, cols, rows, x, until - 1);
    }
}

proof fn lemma_line_after(
    g: Seq<int>,
    h: Seq<int>,
    cols: int,
    rows: int,
    x: int,
    y0: int,
    until: int,
)
    requires
        stable(h, cols, rows),
        1 <= x < cols - 1,
        1 <= y0 < until <= rows - 1,
        sweep_line(g, cols, rows, x, y0 + 1) == h,
    ensures
        sweep_line(g, cols, rows, x, until) == h,
        line_topples(g, cols, rows, x, until) == line_topples(g, cols, rows, x, y0 + 1),
        line_lost(g, cols, rows, x, until) == line_lost(g, cols, rows, x, y0 + 1),
    decreases until,
{
    if until > y0 + 1 {
        lemma_line_after(g, h, cols, rows, x, y0, until - 1);
        assert(inside(cols, rows, x, until - 1));
    }
}

proof fn lemma_lines_before(g: Seq<int>, cols: int, rows: int, until: int)
    requires
        forall|x: int, y: int| 1 <= x < until && 1 <= y < rows - 1 ==> #[trigger] g[pos(cols, x, y)] < 4,
    ensures
        sweep_lines(g, cols, rows, until) == g,
        lines_topples(g, cols, rows, until) == 0,
        lines_lost(g, cols, rows, until) == 0,
    decreases until,
{
    if until > 1 {
        lemma_lines_before(g, cols, rows, until - 1);
        lemma_line_before(g, cols, rows, until - 1, rows - 1);
    }
}

proof fn lemma_lines_after(g: Seq<int>, h: Seq<int>, cols: int, rows: int, x0: int, until: int)
    requires
        stable(h, cols, rows),
        1 <= x0 < until <= cols - 1,
        sweep_lines(g, cols, rows, x0 + 1) == h,
    ensures
        sweep_lines(g, cols, rows, until) == h,
        lines_topples(g, cols, rows, until) == lines_topples(g, cols, rows, x0 + 1),
        lines_lost(g, cols, rows, until) == lines_lost(g, cols, rows, x0 + 1),
    decreases until,
{
    if until > x0 + 1 {
        lemma_lines_after(g, h, cols, rows, x0, until - 1);
        lemma_quiet_line(h, cols, rows, until - 1, rows - 1);
    }
}

/// A sweep over a grid with one loaded cell: where no inner cell but
/// `(x, y)` holds four grains or more, and none does once that cell has
/// toppled, the sweep does what the rule does at that cell and no more.
pub proof fn lemma_sweep_of_one_cell(g: Seq<int>, cols: int, rows: int, x: int, y: int)
    requires
        inside(cols, rows, x, y),
        calm_but(g, cols, rows, x, y),
        stable(relax(g, cols, rows, x, y), cols, rows),
    ensures
        sweep(g, cols, rows) == relax(g, cols, rows, x, y),
        sweep_topples(g, cols, rows) == if g[pos(cols, x, y)] >= 4 {
            1int
        } else {
            0int
        },
        sweep_lost(g, cols, rows) == relax_lost(g, cols, rows, x, y),
{
    let h = relax(g, cols, rows, x, y);
    lemma_lines_before(g, cols, rows, x);
    lemma_line_before(g, cols, rows, x, y);
    lemma_line_after(g, h, cols, rows, x, y, rows - 1);
    lemma_lines_after(g, h, cols, rows, x, cols - 1);
}

/// The same of a cell that holds `4 * k` grains: the sweep, which sheds them
/// in bulk, leaves the grid that `k` topples by the unit rule leave.
pub proof fn lemma_sweep_is_units(g: Seq<int>, cols: int, rows: int, x: int, y: int, k: nat)
    requires
        g.len() == cols * rows,
        inside(cols, rows, x, y),
        g[pos(cols, x, y)] == 4 * k,
        calm_but(g, cols, rows, x, y),
        stable(relax(g, cols, rows, x, y), cols, rows),
    ensures
        sweep(g, cols, rows) == shed_units(g, cols, rows, x, y, k),
        sweep(g, cols, rows) == shed(g, cols, rows, x, y, k as int),
{
    lemma_sweep_of_one_cell(g, cols, rows, x, y);
    lemma_rule_is_units(g, cols, rows, x, y, k);
    lemma_bulk_is_units(g, cols, rows, x, y, k);
}

/// A grid that is empty but for `4 * k` grains, `k` no more than three, on
/// one inner cell whose neighbours are inner cells too: after one sweep the
/// cell is empty, each of its four neighbours holds `k` grains, and every
/// other cell is empty still.
pub proof fn lemma_sweep_of_lone_pile(g: Seq<int>, cols: int, rows: int, x: int, y: int, k: nat)
    requires
        g.len() == cols * rows,
        inside(cols, rows, x, y),
        inside(cols, rows, x - 1, y),
        inside(cols, rows, x + 1, y),
        inside(cols, rows, x, y - 1),
        inside(cols, rows, x, y + 1),
        1 <= k <= 3,
        g[pos(cols, x, y)] == 4 * k,
        forall|i: int| 0 <= i < g.len() && i != pos(cols, x, y) ==> #[trigger] g[i] == 0,
    ensures
        sweep(g, cols, rows) == shed_units(g, cols, rows, x, y, k),
        sweep(g, cols, rows).len() == g.len(),
        forall|i: int|
            0 <= i < g.len() ==> #[trigger] sweep(g, cols, rows)[i] == if i == pos(cols, x - 1, y)
                || i == pos(cols, x + 1, y) || i == pos(cols, x, y - 1) || i == pos(cols, x, y + 1) {
                k as int
            } else {
                0int
            },
{
    lemma_pos(cols, rows, x, y);
    lemma_pos(cols, rows, x - 1, y);
    lemma_pos(cols, rows, x + 1, y);
    lemma_pos(cols, rows, x, y - 1);
    lemma_pos(cols, rows, x, y + 1);
    let h = relax(g, cols, rows, x, y);
    assert(h == shed(g, cols, rows, x, y, k as int));
    assert forall|i: int| 0 <= i < g.len() implies #[trigger] h[i] == if i == pos(cols, x - 1, y)
        || i == pos(cols, x + 1, y) || i == pos(cols, x, y - 1) || i == pos(cols, x, y + 1) {
        k as int
    } else {
        0int
    } by {}
    assert forall|x1: int, y1: int| inside(cols, rows, x1, y1) implies #[trigger] h[pos(
        cols,
        x1,
        y1,
    )] < 4 by {
        lemma_pos(cols, rows, x1, y1);
    }
    assert forall|x1: int, y1: int|
        inside(cols, rows, x1, y1) && !(x1 == x && y1 == y) implies #[trigger] g[pos(cols, x1, y1)]
        < 4 by {
        lemma_pos(cols, rows, x1, y1);
        lemma_fundamental_div_mod_converse(pos(cols, x1, y1), cols, y1, x1);
        lemma_fundamental_div_mod_converse(pos(cols, x, y), cols, y, x);
    }
    lemma_sweep_is_units(g, cols, rows, x, y, k);
}

/// The weight of the cell at place `i` under one of two measures. Border
/// cells weigh nothing. An inner cell weighs one under the flat measure; under
/// the deep one it weighs the more the farther it lies from the border, so
/// that four times its weight is more, by four at least, than the weights of
/// its neighbours together.
pub open spec fn weight(cols: int, rows: int, deep: bool, i: int) -> int {
    let x = i % cols;
    let y = i / cols;
    if cols > 0 && inside(cols, rows, x, y) {
        if deep {
            x * (cols - 1 - x) + y * (rows - 1 - y)
        } else {
            1
        }
    } else {
        0
    }
}

/// The weighted grains of the first `n` cells.
pub open spec fn weighted_upto(g: Seq<int>, cols: int, rows: int, deep: bool, n: int) -> int
    decreases n,
{
    if n <= 0 {
        0
    } else {
        weighted_upto(g, cols, rows, deep, n - 1) + weight(cols, rows, deep, n - 1) * g[n - 1]
    }
}

/// The grains of a grid, each counted with the deep weight of its cell.
/// Every topple lowers it by four at least, which is why sweeps come to rest.
pub open spec fn potential(g: Seq<int>, cols: int, rows: int) -> int {
    weighted_upto(g, cols, rows, true, g.len() as int)
}

/// The grains inside the border.
pub open spec fn inner_mass(g: Seq<int>, cols: int, rows: int) -> int {
    weighted_upto(g, cols, rows, false, g.len() as int)
}

/// The grains on the border: what it has swallowed.
pub open spec fn border_mass(g: Seq<int>, cols: int, rows: int) -> int {
    mass(g) - inner_mass(g, cols, rows)
}

/// `n` sweeps, one after the other.
pub open spec fn sweeps(g: Seq<int>, cols: int, rows: int, n: nat) -> Seq<int>
    decreases n,
{
    if n == 0 {
        g
    } else {
        sweeps(sweep(g, cols, rows), cols, rows, (n - 1) as nat)
    }
}

proof fn lemma_weight_bounds(cols: int, rows: int, deep: bool, i: int)
    ensures
        weight(cols, rows, deep, i) >= 0,
        !deep ==> weight(cols, rows, deep, i) <= 1,
{
    if cols > 0 {
        lemma_mod_bound(i, cols);
        let x = i % cols;
        let y = i / cols;
        if inside(cols, rows, x, y) {
            assert(x * (cols - 1 - x) >= 0 && y * (rows - 1 - y) >= 0) by (nonlinear_arith)
                requires
                    0 <= x <= cols - 1,
                    0 <= y <= rows - 1,
            ;
        }
    }
}

proof fn lemma_weight_at(cols: int, rows: int, x: int, y: int)
    requires
        0 <= x < cols,
        0 <= y < rows,
    ensures
        weight(cols, rows, true, pos(cols, x, y)) == if inside(cols, rows, x, y) {
            x * (cols - 1 - x) + y * (rows - 1 - y)
        } else {
            0
        },
        0 <= weight(cols, rows, true, pos(cols, x, y)) <= x * (cols - 1 - x) + y * (rows - 1 - y),
        weight(cols, rows, false, pos(cols, x, y)) == if inside(cols, rows, x, y) {
            1int
        } else {
            0int
        },
{
    lemma_fundamental_div_mod_converse(pos(cols, x, y), cols, y, x);
    assert(x * (cols - 1 - x) >= 0 && y * (rows - 1 - y) >= 0) by (nonlinear_arith)
        requires
            0 <= x <= cols - 1,
            0 <= y <= rows - 1,
    ;
}

proof fn lemma_weighted_credit(
    g: Seq<int>,
    cols: int,
    rows: int,
    deep: bool,
    i: int,
    m: int,
    n: int,
)
    requires
        0 <= i < g.len(),
        0 <= n <= g.len(),
    ensures
        weighted_upto(credit(g, i, m), cols, rows, deep, n) == weighted_upto(
            g,
            cols,
            rows,
            deep,
            n,
        ) + if i < n {
            weight(cols, rows, deep, i) * m
        } else {
            0
        },
    decreases n,
{
    if n > 0 {
        lemma_weighted_credit(g, cols, rows, deep, i, m, n - 1);
        if i == n - 1 {
            let w = weight(cols, rows, deep, i);
            let v = g[i];
            assert(w * (v + m) == w * v + w * m) by (nonlinear_arith);
        }
    }
}

proof fn lemma_weighted_counts(g: Seq<int>, cols: int, rows: int, deep: bool, n: int)
    requires
        counts(g),
        0 <= n <= g.len(),
    ensures
        weighted_upto(g, cols, rows, deep, n) >= 0,
        !deep ==> weighted_upto(g, cols, rows, deep, n) <= mass(g.take(n)),
    decreases n,
{
    if n > 0 {
        lemma_weighted_counts(g, cols, rows, deep, n - 1);
        lemma_weight_bounds(cols, rows, deep, n - 1);
        let w = weight(cols, rows, deep, n - 1);
        let v = g[n - 1];
        assert(w * v >= 0 && (w <= 1 ==> w * v <= v)) by (nonlinear_arith)
            requires
                w >= 0,
                v >= 0,
        ;
        assert(g.take(n).drop_last() =~= g.take(n - 1));
    } else {
        assert(g.take(n) =~= Seq::<int>::empty());
    }
}

/// Of the grains of a grid some lie inside the border and the others on it.
pub proof fn lemma_inner_and_border(g: Seq<int>, cols: int, rows: int)
    requires
        counts(g),
    ensures
        0 <= inner_mass(g, cols, rows) <= mass(g),
        0 <= border_mass(g, cols, rows) <= mass(g),
        inner_mass(g, cols, rows) + border_mass(g, cols, rows) == mass(g),
{
    lemma_weighted_counts(g, cols, rows, false, g.len() as int);
    assert(g.take(g.len() as int) =~= g);
}

/// The grid `h` holds on the border what the grid `g` holds there.
pub open spec fn border_kept(g: Seq<int>, h: Seq<int>, cols: int, rows: int) -> bool {
    &&& h.len() == g.len()
    &&& forall|x: int, y: int|
        0 <= x < cols && 0 <= y < rows && !inside(cols, rows, x, y) ==> #[trigger] h[pos(
            cols,
            x,
            y,
        )] == g[pos(cols, x, y)]
}

/// Grains given to a cell of the grid are on it where the cell lies inside
/// the border, and nowhere where it lies on the border, which stays as it
/// is either way.
pub proof fn lemma_give_effect(g: Seq<int>, cols: int, rows: int, x: int, y: int, m: int)
    requires
        g.len() == cols * rows,
        0 <= x < cols,
        0 <= y < rows,
    ensures
        give(g, cols, rows, x, y, m).len() == g.len(),
        mass(give(g, cols, rows, x, y, m)) == mass(g) + if inside(cols, rows, x, y) {
            m
        } else {
            0
        },
        inner_mass(give(g, cols, rows, x, y, m), cols, rows) == inner_mass(g, cols, rows)
            + if inside(cols, rows, x, y) {
            m
        } else {
            0
        },
        potential(give(g, cols, rows, x, y, m), cols, rows) == potential(g, cols, rows) + depth(
            cols,
            rows,
            x,
            y,
        ) * m,
        border_kept(g, give(g, cols, rows, x, y, m), cols, rows),
        counts(g) && (m >= 0 || g[pos(cols, x, y)] + m >= 0) ==> counts(
            give(g, cols, rows, x, y, m),
        ),
{
    let h = give(g, cols, rows, x, y, m);
    if inside(cols, rows, x, y) {
        let p = pos(cols, x, y);
        lemma_pos(cols, rows, x, y);
        lemma_weight_at(cols, rows, x, y);
        lemma_mass_credit(g, p, m);
        lemma_weighted_credit(g, cols, rows, true, p, m, g.len() as int);
        lemma_weighted_credit(g, cols, rows, false, p, m, g.len() as int);
        lemma_fundamental_div_mod_converse(p, cols, y, x);
        assert forall|x1: int, y1: int|
            0 <= x1 < cols && 0 <= y1 < rows && !inside(cols, rows, x1, y1) implies #[trigger] h[pos(
            cols,
            x1,
            y1,
        )] == g[pos(cols, x1, y1)] by {
            lemma_pos(cols, rows, x1, y1);
            lemma_fundamental_div_mod_converse(pos(cols, x1, y1), cols, y1, x1);
        }
    } else {
        assert(depth(cols, rows, x, y) * m == 0) by (nonlinear_arith)
            requires
                depth(cols, rows, x, y) == 0,
        ;
    }
}

/// A topple of `m` sets of four grains loses what goes to the border and no
/// more, leaves the border as it is, and lowers the potential by `4 * m` at
/// least.
pub proof fn lemma_shed_effect(g: Seq<int>, cols: int, rows: int, x: int, y: int, m: int)
    requires
        g.len() == cols * rows,
        inside(cols, rows, x, y),
        m >= 0,
    ensures
        shed(g, cols, rows, x, y, m).len() == g.len(),
        mass(shed(g, cols, rows, x, y, m)) + m * spill(cols, rows, x, y) == mass(g),
        inner_mass(shed(g, cols, rows, x, y, m), cols, rows) + m * spill(cols, rows, x, y)
            == inner_mass(g, cols, rows),
        0 <= m * spill(cols, rows, x, y),
        potential(shed(g, cols, rows, x, y, m), cols, rows) + 4 * m <= potential(g, cols, rows),
        border_kept(g, shed(g, cols, rows, x, y, m), cols, rows),
        counts(g) && g[pos(cols, x, y)] >= 4 * m ==> counts(shed(g, cols, rows, x, y, m)),
{
    let g0 = credit(g, pos(cols, x, y), -4 * m);
    let g1 = give(g0, cols, rows, x - 1, y, m);
    let g2 = give(g1, cols, rows, x, y - 1, m);
    let g3 = give(g2, cols, rows, x + 1, y, m);
    assert(g0 == give(g, cols, rows, x, y, -4 * m));
    lemma_give_effect(g, cols, rows, x, y, -4 * m);
    lemma_give_effect(g0, cols, rows, x - 1, y, m);
    lemma_give_effect(g1, cols, rows, x, y - 1, m);
    lemma_give_effect(g2, cols, rows, x + 1, y, m);
    lemma_give_effect(g3, cols, rows, x, y + 1, m);
    lemma_depth_bounds(cols, rows, x, y);
    lemma_depth_bounds(cols, rows, x - 1, y);
    lemma_depth_bounds(cols, rows, x + 1, y);
    lemma_depth_bounds(cols, rows, x, y - 1);
    lemma_depth_bounds(cols, rows, x, y + 1);
    let wc = depth(cols, rows, x, y);
    let wl = depth(cols, rows, x - 1, y);
    let wu = depth(cols, rows, x, y - 1);
    let wr = depth(cols, rows, x + 1, y);
    let wd = depth(cols, rows, x, y + 1);
    assert(wl + wu + wr + wd <= 4 * wc - 4) by (nonlinear_arith)
        requires
            wc == x * (cols - 1 - x) + y * (rows - 1 - y),
            wl <= (x - 1) * (cols - 1 - (x - 1)) + y * (rows - 1 - y),
            wr <= (x + 1) * (cols - 1 - (x + 1)) + y * (rows - 1 - y),
            wu <= x * (cols - 1 - x) + (y - 1) * (rows - 1 - (y - 1)),
            wd <= x * (cols - 1 - x) + (y + 1) * (rows - 1 - (y + 1)),
    ;
    assert(wc * (-4 * m) + wl * m + wu * m + wr * m + wd * m <= -4 * m) by (nonlinear_arith)
        requires
            wl + wu + wr + wd <= 4 * wc - 4,
            m >= 0,
    ;
    let k = spill(cols, rows, x, y);
    assert(m * k == if k == 0 {
        0int
    } else if k == 1 {
        m
    } else if k == 2 {
        2 * m
    } else if k == 3 {
        3 * m
    } else {
        4 * m
    }) by (nonlinear_arith)
        requires
            0 <= k <= 4,
    ;
}

/// Moving single grains from an inner cell towards neighbours loses what
/// goes to the border and no more, and leaves the border as it is.
pub proof fn lemma_scatter_effect(
    g: Seq<int>,
    cols: int,
    rows: int,
    x: int,
    y: int,
    l: bool,
    u: bool,
    r: bool,
    d: bool,
)
    requires
        g.len() == cols * rows,
        inside(cols, rows, x, y),
    ensures
        scatter(g, cols, rows, x, y, l, u, r, d).len() == g.len(),
        mass(scatter(g, cols, rows, x, y, l, u, r, d)) <= mass(g),
        mass(g) - mass(scatter(g, cols, rows, x, y, l, u, r, d)) == inner_mass(g, cols, rows)
            - inner_mass(scatter(g, cols, rows, x, y, l, u, r, d), cols, rows),
        border_kept(g, scatter(g, cols, rows, x, y, l, u, r, d), cols, rows),
        counts(g) && g[pos(cols, x, y)] >= 4 ==> counts(scatter(g, cols, rows, x, y, l, u, r, d)),
{
    let g0 = credit(g, pos(cols, x, y), -chosen(l, u, r, d));
    let g1 = if l { give(g0, cols, rows, x - 1, y, 1) } else { g0 };
    let g2 = if u { give(g1, cols, rows, x, y - 1, 1) } else { g1 };
    let g3 = if r { give(g2, cols, rows, x + 1, y, 1) } else { g2 };
    assert(g0 == give(g, cols, rows, x, y, -chosen(l, u, r, d)));
    lemma_give_effect(g, cols, rows, x, y, -chosen(l, u, r, d));
    lemma_give_effect(g0, cols, rows, x - 1, y, 1);
    lemma_give_effect(g1, cols, rows, x, y - 1, 1);
    lemma_give_effect(g2, cols, rows, x + 1, y, 1);
    lemma_give_effect(g3, cols, rows, x, y + 1, 1);
}

/// The rule at one inner cell loses what goes to the border and no more,
/// leaves the border as it is, keeps the counts non-negative, and lowers the
/// potential by four at least where the cell topples.
pub proof fn lemma_relax_effect(g: Seq<int>, cols: int, rows: int, x: int, y: int)
    requires
        g.len() == cols * rows,
        counts(g),
        inside(cols, rows, x, y),
    ensures
        relax(g, cols, rows, x, y).len() == g.len(),
        counts(relax(g, cols, rows, x, y)),
        mass(relax(g, cols, rows, x, y)) + relax_lost(g, cols, rows, x, y) == mass(g),
        inner_mass(relax(g, cols, rows, x, y), cols, rows) + relax_lost(g, cols, rows, x, y)
            == inner_mass(g, cols, rows),
        relax_lost(g, cols, rows, x, y) >= 0,
        border_kept(g, relax(g, cols, rows, x, y), cols, rows),
        potential(relax(g, cols, rows, x, y), cols, rows) <= potential(g, cols, rows),
        g[pos(cols, x, y)] >= 4 ==> potential(relax(g, cols, rows, x, y), cols, rows) + 4
            <= potential(g, cols, rows),
        g[pos(cols, x, y)] < 4 ==> relax(g, cols, rows, x, y) == g,
{
    let v = g[pos(cols, x, y)];
    if v >= 4 {
        lemma_shed_effect(g, cols, rows, x, y, v / 4);
    }
}

proof fn lemma_line_effect(g: Seq<int>, cols: int, rows: int, x: int, until: int)
    requires
        g.len() == cols * rows,
        counts(g),
        1 <= x < cols - 1,
        until <= rows - 1,
    ensures
        sweep_line(g, cols, rows, x, until).len() == g.len(),
        counts(sweep_line(g, cols, rows, x, until)),
        mass(sweep_line(g, cols, rows, x, until)) + line_lost(g, cols, rows, x, until) == mass(g),
        inner_mass(sweep_line(g, cols, rows, x, until), cols, rows) + line_lost(
            g,
            cols,
            rows,
            x,
            until,
        ) == inner_mass(g, cols, rows),
        line_lost(g, cols, rows, x, until) >= 0,
        border_kept(g, sweep_line(g, cols, rows, x, until), cols, rows),
        line_topples(g, cols, rows, x, until) >= 0,
        potential(sweep_line(g, cols, rows, x, until), cols, rows) + 4 * line_topples(
            g,
            cols,
            rows,
            x,
            until,
        ) <= potential(g, cols, rows),
        line_topples(g, cols, rows, x, until) == 0 ==> sweep_line(g, cols, rows, x, until) == g,
        line_topples(g, cols, rows, x, until) == 0 ==> forall|y: int|
            1 <= y < until ==> #[trigger] g[pos(cols, x, y)] < 4,
    decreases until,
{
    if until > 1 {
        lemma_line_effect(g, cols, rows, x, until - 1);
        lemma_relax_effect(sweep_line(g, cols, rows, x, until - 1), cols, rows, x, until - 1);
    }
}

proof fn lemma_lines_effect(g: Seq<int>, cols: int, rows: int, until: int)
    requires
        g.len() == cols * rows,
        counts(g),
        until <= cols - 1,
    ensures
        sweep_lines(g, cols, rows, until).len() == g.len(),
        counts(sweep_lines(g, cols, rows, until)),
        mass(sweep_lines(g, cols, rows, until)) + lines_lost(g, cols, rows, until) == mass(g),
        inner_mass(sweep_lines(g, cols, rows, until), cols, rows) + lines_lost(
            g,
            cols,
            rows,
            until,
        ) == inner_mass(g, cols, rows),
        lines_lost(g, cols, rows, until) >= 0,
        border_kept(g, sweep_lines(g, cols, rows, until), cols, rows),
        lines_topples(g, cols, rows, until) >= 0,
        potential(sweep_lines(g, cols, rows, until), cols, rows) + 4 * lines_topples(
            g,
            cols,
            rows,
            until,
        ) <= potential(g, cols, rows),
        lines_topples(g, cols, rows, until) == 0 ==> sweep_lines(g, cols, rows, until) == g,
        lines_topples(g, cols, rows, until) == 0 ==> forall|x: int, y: int|
            1 <= x < until && 1 <= y < rows - 1 ==> #[trigger] g[pos(cols, x, y)] < 4,
    decreases until,
{
    if until > 1 {
        lemma_lines_effect(g, cols, rows, until - 1);
        lemma_line_effect(
            sweep_lines(g, cols, rows, until - 1),
            cols,
            rows,
            until - 1,
            rows - 1,
        );
    }
}

/// A sweep keeps the counts non-negative and never raises the potential; on
/// a grid that is not stable it topples a cell and lowers the potential by
/// four at least.
pub proof fn lemma_sweep_potential(g: Seq<int>, cols: int, rows: int)
    requires
        g.len() == cols * rows,
        counts(g),
    ensures
        sweep(g, cols, rows).len() == g.len(),
        counts(sweep(g, cols, rows)),
        0 <= potential(sweep(g, cols, rows), cols, rows) <= potential(g, cols, rows),
        !stable(g, cols, rows) ==> sweep_topples(g, cols, rows) >= 1 && potential(
            sweep(g, cols, rows),
            cols,
            rows,
        ) + 4 <= potential(g, cols, rows),
{
    lemma_lines_effect(g, cols, rows, cols - 1);
    lemma_weighted_counts(sweep(g, cols, rows), cols, rows, true, g.len() as int);
}

/// The border is a sink: a sweep never writes to it, and the grid loses in
/// a sweep exactly the grains that toppling cells send there. All of them
/// come from the inner cells.
pub proof fn lemma_sweep_sink(g: Seq<int>, cols: int, rows: int)
    requires
        g.len() == cols * rows,
        counts(g),
    ensures
        border_kept(g, sweep(g, cols, rows), cols, rows),
        sweep_lost(g, cols, rows) >= 0,
        mass(sweep(g, cols, rows)) + sweep_lost(g, cols, rows) == mass(g),
        inner_mass(sweep(g, cols, rows), cols, rows) + sweep_lost(g, cols, rows) == inner_mass(
            g,
            cols,
            rows,
        ),
        0 <= inner_mass(sweep(g, cols, rows), cols, rows) <= inner_mass(g, cols, rows),
        border_mass(sweep(g, cols, rows), cols, rows) == border_mass(g, cols, rows),
{
    lemma_lines_effect(g, cols, rows, cols - 1);
    lemma_inner_and_border(sweep(g, cols, rows), cols, rows);
}

/// Any number of sweeps leaves the border as it is and adds no grain: what
/// the grid loses, its inner cells lose.
pub proof fn lemma_sweeps_sink(g: Seq<int>, cols: int, rows: int, n: nat)
    requires
        g.len() == cols * rows,
        counts(g),
    ensures
        sweeps(g, cols, rows, n).len() == g.len(),
        counts(sweeps(g, cols, rows, n)),
        border_kept(g, sweeps(g, cols, rows, n), cols, rows),
        mass(sweeps(g, cols, rows, n)) <= mass(g),
        0 <= inner_mass(sweeps(g, cols, rows, n), cols, rows) <= inner_mass(g, cols, rows),
        mass(g) - mass(sweeps(g, cols, rows, n)) == inner_mass(g, cols, rows) - inner_mass(
            sweeps(g, cols, rows, n),
            cols,
            rows,
        ),
    decreases n,
{
    if n > 0 {
        lemma_sweep_sink(g, cols, rows);
        lemma_sweep_potential(g, cols, rows);
        lemma_sweeps_sink(sweep(g, cols, rows), cols, rows, (n - 1) as nat);
    } else {
        lemma_inner_and_border(g, cols, rows);
    }
}


/// Sweeps come to rest: from any grid of non-negative counts there is a
/// number of sweeps, no more than a quarter of the potential, after which
/// the grid is stable. From then on sweeps change nothing.
pub proof fn lemma_sweeps_come_to_rest(g: Seq<int>, cols: int, rows: int) -> (n: nat)
    requires
        g.len() == cols * rows,
        counts(g),
    ensures
        stable(sweeps(g, cols, rows, n), cols, rows),
        4 * n <= potential(g, cols, rows),
        forall|more: nat| #[trigger]
            sweeps(g, cols, rows, n + more) == sweeps(g, cols, rows, n),
    decreases potential(g, cols, rows),
{
    lemma_sweep_potential(g, cols, rows);
    if stable(g, cols, rows) {
        assert forall|more: nat| #[trigger]
            sweeps(g, cols, rows, 0 + more) == sweeps(g, cols, rows, 0) by {
            lemma_sweeps_of_stable(g, cols, rows, more);
        }
        0
    } else {
        let rest = lemma_sweeps_come_to_rest(sweep(g, cols, rows), cols, rows);
        assert forall|more: nat| #[trigger]
            sweeps(g, cols, rows, rest + 1 + more) == sweeps(g, cols, rows, rest + 1) by {
            assert(sweeps(g, cols, rows, rest + 1 + more) == sweeps(
                sweep(g, cols, rows),
                cols,
                rows,
                rest + more,
            ));
        }
        rest + 1
    }
}

/// The potential of non-negative counts is not negative.
pub proof fn lemma_potential_counts(g: Seq<int>, cols: int, rows: int)
    requires
        counts(g),
    ensures
        potential(g, cols, rows) >= 0,
{
    lemma_weighted_counts(g, cols, rows, true, g.len() as int);
}

/// One more sweep after `n` sweeps makes `n + 1` sweeps.
pub proof fn lemma_sweeps_more(g: Seq<int>, cols: int, rows: int, n: nat)
    ensures
        sweeps(g, cols, rows, n + 1) == sweep(sweeps(g, cols, rows, n), cols, rows),
    decreases n,
{
    if n > 0 {
        lemma_sweeps_more(sweep(g, cols, rows), cols, rows, (n - 1) as nat);
    } else {
        assert(sweeps(sweep(g, cols, rows), cols, rows, 0) == sweep(g, cols, rows));
    }
}

/// How many cells topple in `n` sweeps, one after the other.
pub open spec fn sweeps_topples(g: Seq<int>, cols: int, rows: int, n: nat) -> int
    decreases n,
{
    if n == 0 {
        0
    } else {
        sweep_topples(g, cols, rows) + sweeps_topples(
            sweep(g, cols, rows),
            cols,
            rows,
            (n - 1) as nat,
        )
    }
}

/// The topples of `n + 1` sweeps are those of `n` sweeps and of one more.
pub proof fn lemma_sweeps_topples_more(g: Seq<int>, cols: int, rows: int, n: nat)
    ensures
        sweeps_topples(g, cols, rows, n + 1) == sweeps_topples(g, cols, rows, n) + sweep_topples(
            sweeps(g, cols, rows, n),
            cols,
            rows,
        ),
    decreases n,
{
    if n > 0 {
        lemma_sweeps_topples_more(sweep(g, cols, rows), cols, rows, (n - 1) as nat);
    } else {
        assert(sweeps_topples(sweep(g, cols, rows), cols, rows, 0) == 0);
        assert(sweeps(g, cols, rows, 0) == g);
    }
}

/// Where a grid is stable, a sweep changes nothing.
pub proof fn lemma_stable_sweep_if(g: Seq<int>, cols: int, rows: int)
    ensures
        stable(g, cols, rows) ==> sweep(g, cols, rows) == g,
{
    if stable(g, cols, rows) {
        lemma_stable_sweep(g, cols, rows);
    }
}

/// Any number of sweeps over a stable grid changes no cell.
pub proof fn lemma_sweeps_of_stable(g: Seq<int>, cols: int, rows: int, n: nat)
    requires
        stable(g, cols, rows),
    ensures
        sweeps(g, cols, rows, n) == g,
    decreases n,
{
    if n > 0 {
        lemma_stable_sweep(g, cols, rows);
        lemma_sweeps_of_stable(g, cols, rows, (n - 1) as nat);
    }
}

/// The deep weight of the cell `(x, y)`; nothing for a place on the border
/// or off the grid.
pub open spec fn depth(cols: int, rows: int, x: int, y: int) -> int {
    if inside(cols, rows, x, y) {
        x * (cols - 1 - x) + y * (rows - 1 - y)
    } else {
        0
    }
}

/// The grains on a work list, each counted with the depth of the cell that
/// it is bound for.
pub open spec fn pending_potential(s: Seq<Pending>, cols: int, rows: int) -> int
    decreases s.len(),
{
    if s.len() == 0 {
        0
    } else {
        pending_potential(s.drop_last(), cols, rows) + s.last().amount * depth(
            cols,
            rows,
            s.last().x as int,
            s.last().y as int,
        )
    }
}

/// How far a cascade is from rest: the potential of its grid and of its work
/// list, and the length of the list.
pub open spec fn unrest(c: Cascade, cols: int, rows: int) -> int {
    potential(c.grains, cols, rows) + pending_potential(c.pending, cols, rows) + c.pending.len()
}

proof fn lemma_depth_bounds(cols: int, rows: int, x: int, y: int)
    ensures
        depth(cols, rows, x, y) >= 0,
        0 <= x < cols && 0 <= y < rows ==> depth(cols, rows, x, y) <= x * (cols - 1 - x) + y * (rows
            - 1 - y),
{
    if (0 <= x < cols && 0 <= y < rows) || inside(cols, rows, x, y) {
        assert(x * (cols - 1 - x) >= 0 && y * (rows - 1 - y) >= 0) by (nonlinear_arith)
            requires
                0 <= x <= cols - 1,
                0 <= y <= rows - 1,
        ;
    }
}

proof fn lemma_pending_potential_push(s: Seq<Pending>, p: Pending, cols: int, rows: int)
    ensures
        pending_potential(s.push(p), cols, rows) == pending_potential(s, cols, rows) + p.amount
            * depth(cols, rows, p.x as int, p.y as int),
{
    assert(s.push(p).drop_last() =~= s);
}

proof fn lemma_pending_potential_counts(s: Seq<Pending>, cols: int, rows: int)
    ensures
        pending_potential(s, cols, rows) >= 0,
    decreases s.len(),
{
    if s.len() > 0 {
        lemma_pending_potential_counts(s.drop_last(), cols, rows);
        let a = s.last().amount as int;
        let d = depth(cols, rows, s.last().x as int, s.last().y as int);
        lemma_depth_bounds(cols, rows, s.last().x as int, s.last().y as int);
        assert(a * d >= 0) by (nonlinear_arith)
            requires
                a >= 0,
                d >= 0,
        ;
    }
}

/// On a grid whose border swallows grains, every step of a cascade brings
/// it nearer to rest.
pub proof fn lemma_advance_unrest(c: Cascade, cols: int, rows: int)
    requires
        sound(c, cols, rows, false),
        c.pending.len() > 0,
    ensures
        unrest(advance(c, cols, rows, false), cols, rows) + 1 <= unrest(c, cols, rows),
        advance(c, cols, rows, false).steps == c.steps + 1,
        c.topples <= advance(c, cols, rows, false).topples <= c.topples + 1,
{
    let item = c.pending.last();
    let rest = c.pending.drop_last();
    let x = item.x as int;
    let y = item.y as int;
    let a = item.amount as int;
    lemma_advance_conserves(c, cols, rows, false);
    if inside(cols, rows, x, y) {
        lemma_pos(cols, rows, x, y);
        lemma_weight_at(cols, rows, x, y);
        let p = pos(cols, x, y);
        let w = depth(cols, rows, x, y);
        let g1 = credit(c.grains, p, a);
        lemma_weighted_credit(c.grains, cols, rows, true, p, a, c.grains.len() as int);
        assert(w * a == a * w) by (nonlinear_arith);
        lemma_mass_credit(c.grains, p, a);
        lemma_cell_in_mass(g1, p);
        lemma_parcels_nonneg(rest);
        let v = g1[p];
        if v >= 4 {
            let m = v / 4;
            assert(g1.update(p, v - 4 * m) =~= credit(g1, p, -4 * m));
            lemma_weighted_credit(g1, cols, rows, true, p, -4 * m, c.grains.len() as int);
            let i1 = parcel(m, x, y + 1);
            let i2 = parcel(m, x + 1, y);
            let i3 = parcel(m, x, y - 1);
            let i4 = parcel(m, x - 1, y);
            lemma_pending_potential_push(rest, i1, cols, rows);
            lemma_pending_potential_push(rest.push(i1), i2, cols, rows);
            lemma_pending_potential_push(rest.push(i1).push(i2), i3, cols, rows);
            lemma_pending_potential_push(rest.push(i1).push(i2).push(i3), i4, cols, rows);
            lemma_depth_bounds(cols, rows, x, y + 1);
            lemma_depth_bounds(cols, rows, x + 1, y);
            lemma_depth_bounds(cols, rows, x, y - 1);
            lemma_depth_bounds(cols, rows, x - 1, y);
            let wd = depth(cols, rows, x, y + 1);
            let wr = depth(cols, rows, x + 1, y);
            let wu = depth(cols, rows, x, y - 1);
            let wl = depth(cols, rows, x - 1, y);
            assert(wl + wu + wr + wd <= 4 * w - 4) by (nonlinear_arith)
                requires
                    w == x * (cols - 1 - x) + y * (rows - 1 - y),
                    wl <= (x - 1) * (cols - 1 - (x - 1)) + y * (rows - 1 - y),
                    wr <= (x + 1) * (cols - 1 - (x + 1)) + y * (rows - 1 - y),
                    wu <= x * (cols - 1 - x) + (y - 1) * (rows - 1 - (y - 1)),
                    wd <= x * (cols - 1 - x) + (y + 1) * (rows - 1 - (y + 1)),
            ;
            assert(w * (-4 * m) + m * wd + m * wr + m * wu + m * wl <= -4 * m) by (nonlinear_arith)
                requires
                    wl + wu + wr + wd <= 4 * w - 4,
                    m >= 1,
            ;
        }
    }
}

/// On a grid whose border swallows grains, a cascade takes no more steps
/// than it is far from rest at the start.
pub proof fn lemma_run_unrest(c: Cascade, cols: int, rows: int, fuel: nat)
    requires
        sound(c, cols, rows, false),
    ensures
        unrest(run(c, cols, rows, false, fuel), cols, rows) + (run(c, cols, rows, false, fuel).steps
            - c.steps) <= unrest(c, cols, rows),
        unrest(run(c, cols, rows, false, fuel), cols, rows) >= run(
            c,
            cols,
            rows,
            false,
            fuel,
        ).pending.len(),
        c.steps <= run(c, cols, rows, false, fuel).steps <= c.steps + fuel,
        c.topples <= run(c, cols, rows, false, fuel).topples <= c.topples + (run(
            c,
            cols,
            rows,
            false,
            fuel,
        ).steps - c.steps),
        !halted(run(c, cols, rows, false, fuel)) ==> run(c, cols, rows, false, fuel).steps
            == c.steps + fuel,
    decreases fuel,
{
    if fuel > 0 && !halted(c) {
        lemma_advance_unrest(c, cols, rows);
        lemma_advance_conserves(c, cols, rows, false);
        lemma_run_unrest(advance(c, cols, rows, false), cols, rows, (fuel - 1) as nat);
    } else {
        lemma_pending_potential_counts(c.pending, cols, rows);
        lemma_weighted_counts(c.grains, cols, rows, true, c.grains.len() as int);
    }
}

/// On a grid whose border swallows grains every cascade comes to rest: with
/// counters that have room for as many steps as the cascade is far from
/// rest, and as much fuel, the work list is used up.
pub proof fn lemma_cascade_comes_to_rest(c: Cascade, cols: int, rows: int, fuel: nat)
    requires
        sound(c, cols, rows, false),
        0 <= c.steps,
        0 <= c.topples,
        c.steps + unrest(c, cols, rows) < usize::MAX,
        c.topples + unrest(c, cols, rows) < usize::MAX,
        fuel >= unrest(c, cols, rows),
    ensures
        run(c, cols, rows, false, fuel).pending.len() == 0,
{
    lemma_run_unrest(c, cols, rows, fuel);
}

/// The same of a cascade from a single seed, as `topple` runs it: where the
/// counters have room, all that was sent has arrived or was swallowed.
pub proof fn lemma_seed_comes_to_rest(
    g: Seq<int>,
    cols: int,
    rows: int,
    value: usize,
    x: usize,
    y: usize,
    steps: usize,
    topples: usize,
)
    requires
        g.len() == cols * rows,
        counts(g),
        cols <= usize::MAX,
        rows <= usize::MAX,
        mass(g) + value <= usize::MAX,
        steps + potential(g, cols, rows) + value * depth(cols, rows, x as int, y as int) + 1
            < usize::MAX,
        topples + potential(g, cols, rows) + value * depth(cols, rows, x as int, y as int) + 1
            < usize::MAX,
    ensures
        run(
            seeded(g, value as int, x as int, y as int, steps as int, topples as int),
            cols,
            rows,
            false,
            (usize::MAX - steps) as nat,
        ).pending.len() == 0,
{
    let c = seeded(g, value as int, x as int, y as int, steps as int, topples as int);
    let item = parcel(value as int, x as int, y as int);
    assert(c.pending =~= Seq::<Pending>::empty().push(item));
    lemma_pending_potential_push(Seq::<Pending>::empty(), item, cols, rows);
    lemma_parcels_one(item);
    lemma_cascade_comes_to_rest(c, cols, rows, (usize::MAX - steps) as nat);
}

/// A step of a cascade writes to inner cells alone: the border stays as it
/// is, and what the grid gains or loses, its inner cells gain or lose.
pub proof fn lemma_advance_sink(c: Cascade, cols: int, rows: int, torus: bool)
    requires
        sound(c, cols, rows, torus),
        c.pending.len() > 0,
    ensures
        border_kept(c.grains, advance(c, cols, rows, torus).grains, cols, rows),
        mass(advance(c, cols, rows, torus).grains) - mass(c.grains) == inner_mass(
            advance(c, cols, rows, torus).grains,
            cols,
            rows,
        ) - inner_mass(c.grains, cols, rows),
{
    let item = c.pending.last();
    let x = item.x as int;
    let y = item.y as int;
    let a = item.amount as int;
    if inside(cols, rows, x, y) {
        lemma_pos(cols, rows, x, y);
        let p = pos(cols, x, y);
        let g1 = credit(c.grains, p, a);
        assert(g1 == give(c.grains, cols, rows, x, y, a));
        lemma_give_effect(c.grains, cols, rows, x, y, a);
        let v = g1[p];
        if v >= 4 {
            let m = v / 4;
            assert(g1.update(p, v - 4 * m) =~= give(g1, cols, rows, x, y, -4 * m));
            lemma_give_effect(g1, cols, rows, x, y, -4 * m);
        }
    }
}

/// However long a cascade runs, the border stays as it is, and what the
/// grid gains or loses, its inner cells gain or lose.
pub proof fn lemma_run_sink(c: Cascade, cols: int, rows: int, torus: bool, fuel: nat)
    requires
        sound(c, cols, rows, torus),
    ensures
        border_kept(c.grains, run(c, cols, rows, torus, fuel).grains, cols, rows),
        mass(run(c, cols, rows, torus, fuel).grains) - mass(c.grains) == inner_mass(
            run(c, cols, rows, torus, fuel).grains,
            cols,
            rows,
        ) - inner_mass(c.grains, cols, rows),
    decreases fuel,
{
    if fuel > 0 && !halted(c) {
        lemma_advance_sink(c, cols, rows, torus);
        lemma_advance_conserves(c, cols, rows, torus);
        lemma_run_sink(advance(c, cols, rows, torus), cols, rows, torus, (fuel - 1) as nat);
    }
}

/// A cascade from a single seed: of the grains that the inner cells held
/// and those that were sent, each is on an inner cell, on the work list, or
/// was swallowed by the border, which stays as it is. On a torus none is
/// swallowed.
pub proof fn lemma_seed_sink(
    g: Seq<int>,
    cols: int,
    rows: int,
    value: usize,
    x: usize,
    y: usize,
    steps: int,
    topples: int,
    torus: bool,
    fuel: nat,
)
    requires
        g.len() == cols * rows,
        counts(g),
        cols <= usize::MAX,
        rows <= usize::MAX,
        mass(g) + value <= usize::MAX,
        torus ==> inside(cols, rows, x as int, y as int),
    ensures
        ({
            let end = run(
                seeded(g, value as int, x as int, y as int, steps, topples),
                cols,
                rows,
                torus,
                fuel,
            );
            &&& border_kept(g, end.grains, cols, rows)
            &&& end.absorbed >= 0
            &&& (torus ==> end.absorbed == 0)
            &&& inner_mass(end.grains, cols, rows) + parcels(end.pending) + end.absorbed
                == inner_mass(g, cols, rows) + value
            &&& mass(end.grains) + parcels(end.pending) + end.absorbed == mass(g) + value
        }),
{
    let c = seeded(g, value as int, x as int, y as int, steps, topples);
    lemma_parcels_one(parcel(value as int, x as int, y as int));
    lemma_run_sink(c, cols, rows, torus, fuel);
    lemma_run_conserves(c, cols, rows, torus, fuel);
}

} // verus!
