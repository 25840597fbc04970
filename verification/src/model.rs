//! The mathematical model of a sandpile: a grid is a sequence of grain counts,
//! the cells that share their second coordinate side by side, and toppling is
//! a function on such sequences. A line of the grid is what a sweep visits in
//! one go: the inner cells that share their first coordinate.

use vstd::prelude::*;

verus! {

/// The place of cell `(x, y)` in the sequence, where `x` ranges over `cols`
/// values.
pub open spec fn pos(cols: int, x: int, y: int) -> int {
    y * cols + x
}

/// Whether `(x, y)` lies strictly inside the one-cell border.
pub open spec fn inside(cols: int, rows: int, x: int, y: int) -> bool {
    1 <= x < cols - 1 && 1 <= y < rows - 1
}

/// The grid with `m` more grains in cell `i`.
pub open spec fn credit(g: Seq<int>, i: int, m: int) -> Seq<int> {
    g.update(i, g[i] + m)
}

/// The grid with `m` more grains in cell `(x, y)` where that cell lies inside
/// the border. The border takes nothing: what is sent there is gone.
pub open spec fn give(g: Seq<int>, cols: int, rows: int, x: int, y: int, m: int) -> Seq<int> {
    if inside(cols, rows, x, y) {
        credit(g, pos(cols, x, y), m)
    } else {
        g
    }
}

/// How many of the four neighbours of `(x, y)` lie on the border.
pub open spec fn spill(cols: int, rows: int, x: int, y: int) -> int {
    (if inside(cols, rows, x - 1, y) { 0int } else { 1int }) + (if inside(cols, rows, x, y - 1) {
        0int
    } else {
        1int
    }) + (if inside(cols, rows, x + 1, y) { 0int } else { 1int }) + (if inside(
        cols,
        rows,
        x,
        y + 1,
    ) { 0int } else { 1int })
}

/// One topple of cell `(x, y)` in bulk: `4 * m` grains leave it, and `m` go to
/// each neighbour inside the border, in the order left, up, right, down.
pub open spec fn shed(g: Seq<int>, cols: int, rows: int, x: int, y: int, m: int) -> Seq<int> {
    let g0 = credit(g, pos(cols, x, y), -4 * m);
    let g1 = give(g0, cols, rows, x - 1, y, m);
    let g2 = give(g1, cols, rows, x, y - 1, m);
    let g3 = give(g2, cols, rows, x + 1, y, m);
    give(g3, cols, rows, x, y + 1, m)
}

/// The toppling rule at one cell: with four grains or more, every full set of
/// four leaves it at once.
pub open spec fn relax(g: Seq<int>, cols: int, rows: int, x: int, y: int) -> Seq<int> {
    let v = g[pos(cols, x, y)];
    if v >= 4 {
        shed(g, cols, rows, x, y, v / 4)
    } else {
        g
    }
}

/// The grains that the border swallows when the rule is applied at `(x, y)`.
pub open spec fn relax_lost(g: Seq<int>, cols: int, rows: int, x: int, y: int) -> int {
    let v = g[pos(cols, x, y)];
    if v >= 4 {
        (v / 4) * spill(cols, rows, x, y)
    } else {
        0
    }
}

/// The rule applied along the line `x`, to the cells `(x, 1)` up to, not
/// including, `(x, until)`.
pub open spec fn sweep_line(g: Seq<int>, cols: int, rows: int, x: int, until: int) -> Seq<int>
    decreases until,
{
    if until <= 1 {
        g
    } else {
        relax(sweep_line(g, cols, rows, x, until - 1), cols, rows, x, until - 1)
    }
}

/// The rule applied to the inner cells of the lines `1` up to, not including,
/// `until`, one line after the other.
pub open spec fn sweep_lines(g: Seq<int>, cols: int, rows: int, until: int) -> Seq<int>
    decreases until,
{
    if until <= 1 {
        g
    } else {
        sweep_line(sweep_lines(g, cols, rows, until - 1), cols, rows, until - 1, rows - 1)
    }
}

/// One full sweep over the inner cells.
pub open spec fn sweep(g: Seq<int>, cols: int, rows: int) -> Seq<int> {
    sweep_lines(g, cols, rows, cols - 1)
}

/// No inner cell holds four grains or more.
pub open spec fn stable(g: Seq<int>, cols: int, rows: int) -> bool {
    forall|x: int, y: int| inside(cols, rows, x, y) ==> #[trigger] g[pos(cols, x, y)] < 4
}

/// The grains of a grid, all cells together.
pub open spec fn mass(g: Seq<int>) -> int
    decreases g.len(),
{
    if g.len() == 0 {
        0
    } else {
        mass(g.drop_last()) + g.last()
    }
}

/// No cell holds a negative count.
pub open spec fn counts(g: Seq<int>) -> bool {
    forall|i: int| 0 <= i < g.len() ==> #[trigger] g[i] >= 0
}

/// How many cells of the line `x` topple when the rule is applied to the
/// cells `(x, 1)` up to, not including, `(x, until)`.
pub open spec fn line_topples(g: Seq<int>, cols: int, rows: int, x: int, until: int) -> int
    decreases until,
{
    if until <= 1 {
        0
    } else {
        line_topples(g, cols, rows, x, until - 1) + if sweep_line(g, cols, rows, x, until - 1)[pos(
            cols,
            x,
            until - 1,
        )] >= 4 {
            1int
        } else {
            0int
        }
    }
}

/// How many cells topple while the lines `1` up to, not including, `until`
/// are swept.
pub open spec fn lines_topples(g: Seq<int>, cols: int, rows: int, until: int) -> int
    decreases until,
{
    if until <= 1 {
        0
    } else {
        lines_topples(g, cols, rows, until - 1) + line_topples(
            sweep_lines(g, cols, rows, until - 1),
            cols,
            rows,
            until - 1,
            rows - 1,
        )
    }
}

/// How many cells topple in one full sweep.
pub open spec fn sweep_topples(g: Seq<int>, cols: int, rows: int) -> int {
    lines_topples(g, cols, rows, cols - 1)
}

/// The grains that the border swallows while the rule is applied to the
/// cells `(x, 1)` up to, not including, `(x, until)`.
pub open spec fn line_lost(g: Seq<int>, cols: int, rows: int, x: int, until: int) -> int
    decreases until,
{
    if until <= 1 {
        0
    } else {
        line_lost(g, cols, rows, x, until - 1) + relax_lost(
            sweep_line(g, cols, rows, x, until - 1),
            cols,
            rows,
            x,
            until - 1,
        )
    }
}

/// The grains that the border swallows while the lines `1` up to, not
/// including, `until` are swept.
pub open spec fn lines_lost(g: Seq<int>, cols: int, rows: int, until: int) -> int
    decreases until,
{
    if until <= 1 {
        0
    } else {
        lines_lost(g, cols, rows, until - 1) + line_lost(
            sweep_lines(g, cols, rows, until - 1),
            cols,
            rows,
            until - 1,
            rows - 1,
        )
    }
}

/// The grains that the border swallows in one full sweep.
pub open spec fn sweep_lost(g: Seq<int>, cols: int, rows: int) -> int {
    lines_lost(g, cols, rows, cols - 1)
}

/// Whether a sample of 32 random bits, read as a fraction of 24 bits, lies
/// under a probability given in units of 2^-24.
pub open spec fn passes(sample: u32, level: u32) -> bool {
    sample / 256 < level
}

/// The number of `true` among four choices.
pub open spec fn chosen(l: bool, u: bool, r: bool, d: bool) -> int {
    (if l { 1int } else { 0int }) + (if u { 1int } else { 0int }) + (if r { 1int } else { 0int })
        + (if d { 1int } else { 0int })
}

/// One grain leaves cell `(x, y)` for each neighbour that was chosen: left,
/// up, right, down. A neighbour inside the border gets it; one sent to the
/// border is gone.
pub open spec fn scatter(
    g: Seq<int>,
    cols: int,
    rows: int,
    x: int,
    y: int,
    l: bool,
    u: bool,
    r: bool,
    d: bool,
) -> Seq<int> {
    let g0 = credit(g, pos(cols, x, y), -chosen(l, u, r, d));
    let g1 = if l { give(g0, cols, rows, x - 1, y, 1) } else { g0 };
    let g2 = if u { give(g1, cols, rows, x, y - 1, 1) } else { g1 };
    let g3 = if r { give(g2, cols, rows, x + 1, y, 1) } else { g2 };
    if d { give(g3, cols, rows, x, y + 1, 1) } else { g3 }
}

/// What four samples do to the cell `(x, y)`: holding four grains or more,
/// it sends one towards each neighbour whose sample passes; holding fewer,
/// it sends nothing.
pub open spec fn scatter_drawn(
    g: Seq<int>,
    cols: int,
    rows: int,
    x: int,
    y: int,
    level: u32,
    samples: [u32; 4],
) -> Seq<int> {
    if g[pos(cols, x, y)] >= 4 {
        scatter(
            g,
            cols,
            rows,
            x,
            y,
            passes(samples[0], level),
            passes(samples[1], level),
            passes(samples[2], level),
            passes(samples[3], level),
        )
    } else {
        g
    }
}

/// The first `k` cells of a sweep grain by grain, the cell visited as number
/// `i` with the samples `draws[i]`. The cells are visited as in a sweep by
/// the rule: line after line, each line from its first inner cell.
pub open spec fn scatter_upto(
    g: Seq<int>,
    cols: int,
    rows: int,
    level: u32,
    draws: Seq<[u32; 4]>,
    k: int,
) -> Seq<int>
    decreases k,
{
    if k <= 0 {
        g
    } else {
        scatter_drawn(
            scatter_upto(g, cols, rows, level, draws, k - 1),
            cols,
            rows,
            1 + (k - 1) / (rows - 2),
            1 + (k - 1) % (rows - 2),
            level,
            draws[k - 1],
        )
    }
}

/// One full sweep grain by grain with the samples `draws`, four for each
/// inner cell.
pub open spec fn scatter_sweep(
    g: Seq<int>,
    cols: int,
    rows: int,
    level: u32,
    draws: Seq<[u32; 4]>,
) -> Seq<int> {
    scatter_upto(g, cols, rows, level, draws, (cols - 2) * (rows - 2))
}

/// Samples that a sweep has not come to do not bear on what it has done.
pub proof fn lemma_scatter_upto_push(
    g: Seq<int>,
    cols: int,
    rows: int,
    level: u32,
    draws: Seq<[u32; 4]>,
    more: [u32; 4],
    k: int,
)
    requires
        k <= draws.len(),
    ensures
        scatter_upto(g, cols, rows, level, draws.push(more), k) == scatter_upto(
            g,
            cols,
            rows,
            level,
            draws,
            k,
        ),
    decreases k,
{
    if k > 0 {
        lemma_scatter_upto_push(g, cols, rows, level, draws, more, k - 1);
    }
}

/// The number of cells visited before `(x, y)` in a sweep over lines that
/// hold `rows - 2` inner cells each.
pub open spec fn visited(rows: int, x: int, y: int) -> int {
    (x - 1) * (rows - 2) + (y - 1)
}

/// The cells of a line are visited one after the other, and all lines
/// together hold no more than the inner cells of the grid.
pub proof fn lemma_visited(cols: int, rows: int, x: int)
    requires
        1 <= x < cols - 1,
        2 <= rows,
    ensures
        visited(rows, x + 1, 1) == visited(rows, x, rows - 1),
        0 <= visited(rows, x, 1),
        visited(rows, x, rows - 1) <= (cols - 2) * (rows - 2),
{
    assert((x - 1) * (rows - 2) + (rows - 2) == x * (rows - 2) && 0 <= (x - 1) * (rows - 2) && x
        * (rows - 2) <= (cols - 2) * (rows - 2)) by (nonlinear_arith)
        requires
            1 <= x <= cols - 2,
            2 <= rows,
    ;
}

/// A cell of the grid has a place in the sequence, and its neighbours lie
/// one place, or `cols` places, before and after it.
pub proof fn lemma_pos(cols: int, rows: int, x: int, y: int)
    requires
        0 <= x < cols,
        0 <= y < rows,
    ensures
        0 <= pos(cols, x, y) < cols * rows,
        pos(cols, x, y + 1) == pos(cols, x, y) + cols,
        pos(cols, x, y - 1) == pos(cols, x, y) - cols,
        pos(cols, x + 1, y) == pos(cols, x, y) + 1,
        pos(cols, x - 1, y) == pos(cols, x, y) - 1,
{
    assert(0 <= y * cols && y * cols + cols <= cols * rows && (y + 1) * cols == y * cols + cols
        && (y - 1) * cols == y * cols - cols) by (nonlinear_arith)
        requires
            0 <= y < rows,
            0 < cols,
    ;
}

/// Writing a cell changes the mass by the difference of the two counts.
pub proof fn lemma_mass_update(g: Seq<int>, i: int, v: int)
    requires
        0 <= i < g.len(),
    ensures
        mass(g.update(i, v)) == mass(g) - g[i] + v,
    decreases g.len(),
{
    if i == g.len() - 1 {
        assert(g.update(i, v).drop_last() =~= g.drop_last());
    } else {
        lemma_mass_update(g.drop_last(), i, v);
        assert(g.update(i, v).drop_last() =~= g.drop_last().update(i, v));
    }
}

/// Adding grains to a cell adds them to the mass.
pub proof fn lemma_mass_credit(g: Seq<int>, i: int, m: int)
    requires
        0 <= i < g.len(),
    ensures
        mass(credit(g, i, m)) == mass(g) + m,
{
    lemma_mass_update(g, i, g[i] + m);
}

/// No cell holds more than the whole grid.
pub proof fn lemma_cell_in_mass(g: Seq<int>, i: int)
    requires
        counts(g),
        0 <= i < g.len(),
    ensures
        0 <= g[i] <= mass(g),
    decreases g.len(),
{
    lemma_mass_counts(g.drop_last());
    if i < g.len() - 1 {
        lemma_cell_in_mass(g.drop_last(), i);
    }
}

/// The mass of non-negative counts is not negative.
pub proof fn lemma_mass_counts(g: Seq<int>)
    requires
        counts(g),
    ensures
        mass(g) >= 0,
    decreases g.len(),
{
    if g.len() > 0 {
        lemma_mass_counts(g.drop_last());
    }
}

/// An empty grid has no mass.
pub proof fn lemma_mass_zero(n: nat)
    ensures
        mass(Seq::new(n, |i: int| 0int)) == 0,
    decreases n,
{
    if n > 0 {
        assert(Seq::new(n, |i: int| 0int).drop_last() =~= Seq::new((n - 1) as nat, |i: int| 0int));
        lemma_mass_zero((n - 1) as nat);
    }
}

} // verus!
