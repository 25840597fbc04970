//! The storage of a sandpile: a two-dimensional array of the `toodee` crate,
//! with what this library takes on trust about it, and verified cell
//! operations on top.

use toodee::TooDee;
use vstd::prelude::*;
use crate::model::{
    counts, credit, give, inside, lemma_cell_in_mass, lemma_mass_credit, lemma_pos, mass, pos,
    shed, spill,
};

verus! {

/// `toodee::TooDee`, the two-dimensional array. Nothing inside it is seen
/// here: its cells and its dimensions are known through `grid_cells` and
/// `grid_size` alone.
#[verifier::external_type_specification]
#[verifier::external_body]
#[verifier::reject_recursive_types(T)]
pub struct ExTooDee<T>(TooDee<T>);

/// The cells that an array holds, row after row, as `TooDee::data` hands
/// them out.
pub uninterp spec fn grid_cells(g: TooDee<usize>) -> Seq<usize>;

/// The dimensions of an array, as `TooDeeOps::size` gives them: the number of
/// columns, then the number of rows.
pub uninterp spec fn grid_size(g: TooDee<usize>) -> (nat, nat);

/// Calls `TooDee::init`. Trusted: the array has the dimensions asked for and
/// holds `value` in every cell. `init` panics where the product of the
/// dimensions overflows or only one of them is zero.
#[verifier::external_body]
pub(crate) fn grid_init(cols: usize, rows: usize, value: usize) -> (g: TooDee<usize>)
    requires
        cols * rows <= usize::MAX,
        (cols == 0) == (rows == 0),
    ensures
        grid_size(g) == (cols as nat, rows as nat),
        grid_cells(g) == Seq::new((cols * rows) as nat, |i: int| value),
{
    TooDee::init(cols, rows, value)
}

/// Reads `g[(x, y)]`, the `Index<Coordinate>` of `TooDee`. Trusted: the result
/// is the cell at `y * columns + x`. The index panics outside the dimensions.
#[verifier::external_body]
pub(crate) fn grid_get(g: &TooDee<usize>, x: usize, y: usize) -> (v: usize)
    requires
        x < grid_size(*g).0,
        y < grid_size(*g).1,
    ensures
        v == grid_cells(*g)[y * grid_size(*g).0 + x],
{
    g[(x, y)]
}

/// Writes `g[(x, y)]`, the `IndexMut<Coordinate>` of `TooDee`. Trusted: the
/// cell at `y * columns + x` becomes `v`, the others and the dimensions stay.
/// The index panics outside the dimensions.
#[verifier::external_body]
pub(crate) fn grid_set(g: &mut TooDee<usize>, x: usize, y: usize, v: usize)
    requires
        x < grid_size(*old(g)).0,
        y < grid_size(*old(g)).1,
    ensures
        grid_size(*final(g)) == grid_size(*old(g)),
        grid_cells(*final(g)) == grid_cells(*old(g)).update(
            y * grid_size(*old(g)).0 + x,
            v,
        ),
{
    g[(x, y)] = v;
}

/// The grain counts of an array as mathematical integers.
pub open spec fn grains_of(g: TooDee<usize>) -> Seq<int> {
    grid_cells(g).map_values(|v: usize| v as int)
}

/// The array holds one cell for each pair of coordinates.
pub open spec fn grid_ok(g: TooDee<usize>) -> bool {
    &&& grid_cells(g).len() == grid_size(g).0 * grid_size(g).1
    &&& grid_size(g).0 <= usize::MAX
    &&& grid_size(g).1 <= usize::MAX
}

/// The grain counts of an array are as many as its cells, none negative and
/// each within the range of a `usize`.
pub proof fn lemma_grains_counts(g: TooDee<usize>)
    ensures
        counts(grains_of(g)),
        grains_of(g).len() == grid_cells(g).len(),
        forall|i: int| 0 <= i < grains_of(g).len() ==> #[trigger] grains_of(g)[i] <= usize::MAX,
{
}

/// The grains in cell `(x, y)`.
pub fn read_cell(g: &TooDee<usize>, x: usize, y: usize) -> (v: usize)
    requires
        grid_ok(*g),
        x < grid_size(*g).0,
        y < grid_size(*g).1,
    ensures
        v == grains_of(*g)[pos(grid_size(*g).0 as int, x as int, y as int)],
{
    proof {
        lemma_pos(grid_size(*g).0 as int, grid_size(*g).1 as int, x as int, y as int);
    }
    grid_get(g, x, y)
}

/// Puts `v` grains in cell `(x, y)`.
pub fn write_cell(g: &mut TooDee<usize>, x: usize, y: usize, v: usize)
    requires
        grid_ok(*old(g)),
        x < grid_size(*old(g)).0,
        y < grid_size(*old(g)).1,
    ensures
        grid_ok(*final(g)),
        grid_size(*final(g)) == grid_size(*old(g)),
        grains_of(*final(g)) == grains_of(*old(g)).update(
            pos(grid_size(*old(g)).0 as int, x as int, y as int),
            v as int,
        ),
{
    proof {
        lemma_pos(grid_size(*g).0 as int, grid_size(*g).1 as int, x as int, y as int);
    }
    let ghost before = *g;
    grid_set(g, x, y, v);
    assert(grains_of(*g) =~= grains_of(before).update(
        pos(grid_size(before).0 as int, x as int, y as int),
        v as int,
    ));
}

/// Adds `m` grains to cell `(x, y)`.
pub fn credit_cell(g: &mut TooDee<usize>, x: usize, y: usize, m: usize)
    requires
        grid_ok(*old(g)),
        x < grid_size(*old(g)).0,
        y < grid_size(*old(g)).1,
        mass(grains_of(*old(g))) + m <= usize::MAX,
    ensures
        grid_ok(*final(g)),
        grid_size(*final(g)) == grid_size(*old(g)),
        grains_of(*final(g)) == credit(
            grains_of(*old(g)),
            pos(grid_size(*old(g)).0 as int, x as int, y as int),
            m as int,
        ),
        mass(grains_of(*final(g))) == mass(grains_of(*old(g))) + m,
{
    proof {
        lemma_pos(grid_size(*g).0 as int, grid_size(*g).1 as int, x as int, y as int);
        lemma_grains_counts(*g);
        let p = pos(grid_size(*g).0 as int, x as int, y as int);
        lemma_cell_in_mass(grains_of(*g), p);
        lemma_mass_credit(grains_of(*g), p, m as int);
    }
    let v = read_cell(g, x, y);
    write_cell(g, x, y, v + m);
}

/// Adds `m` grains to cell `(x, y)` where it lies inside the border, and
/// nothing where it lies on the border.
pub fn give_cell(g: &mut TooDee<usize>, cols: usize, rows: usize, x: usize, y: usize, m: usize)
    requires
        grid_ok(*old(g)),
        grid_size(*old(g)) == (cols as nat, rows as nat),
        x < cols,
        y < rows,
        mass(grains_of(*old(g))) + m <= usize::MAX,
    ensures
        grid_ok(*final(g)),
        grid_size(*final(g)) == grid_size(*old(g)),
        grains_of(*final(g)) == give(
            grains_of(*old(g)),
            cols as int,
            rows as int,
            x as int,
            y as int,
            m as int,
        ),
        mass(grains_of(*final(g))) == mass(grains_of(*old(g))) + if inside(
            cols as int,
            rows as int,
            x as int,
            y as int,
        ) {
            m as int
        } else {
            0int
        },
{
    if 1 <= x && x + 1 < cols && 1 <= y && y + 1 < rows {
        credit_cell(g, x, y, m);
    }
}

/// Topples the inner cell `(x, y)` in bulk: takes `4 * m` grains from it and
/// gives `m` to each of its neighbours inside the border.
pub fn shed_cell(g: &mut TooDee<usize>, cols: usize, rows: usize, x: usize, y: usize, m: usize)
    requires
        grid_ok(*old(g)),
        grid_size(*old(g)) == (cols as nat, rows as nat),
        inside(cols as int, rows as int, x as int, y as int),
        4 * m <= grains_of(*old(g))[pos(cols as int, x as int, y as int)],
        mass(grains_of(*old(g))) <= usize::MAX,
    ensures
        grid_ok(*final(g)),
        grid_size(*final(g)) == grid_size(*old(g)),
        grains_of(*final(g)) == shed(
            grains_of(*old(g)),
            cols as int,
            rows as int,
            x as int,
            y as int,
            m as int,
        ),
        mass(grains_of(*final(g))) + m * spill(cols as int, rows as int, x as int, y as int)
            == mass(grains_of(*old(g))),
        mass(grains_of(*final(g))) <= mass(grains_of(*old(g))),
{
    let ghost g_in = grains_of(*g);
    proof {
        lemma_pos(cols as int, rows as int, x as int, y as int);
        lemma_mass_credit(g_in, pos(cols as int, x as int, y as int), -4 * m);
    }
    let v = read_cell(g, x, y);
    write_cell(g, x, y, v - 4 * m);
    assert(grains_of(*g) == credit(g_in, pos(cols as int, x as int, y as int), -4 * m));
    give_cell(g, cols, rows, x - 1, y, m);
    give_cell(g, cols, rows, x, y - 1, m);
    give_cell(g, cols, rows, x + 1, y, m);
    give_cell(g, cols, rows, x, y + 1, m);
    proof {
        let k = 4 - spill(cols as int, rows as int, x as int, y as int);
        assert(m * spill(cols as int, rows as int, x as int, y as int) == 4 * m - m * k)
            by (nonlinear_arith)
            requires
                k == 4 - spill(cols as int, rows as int, x as int, y as int),
        ;
        assert(0 <= k <= 4);
        assert(m * k == if k == 0 {
            0int
        } else if k == 1 {
            m as int
        } else if k == 2 {
            2 * m
        } else if k == 3 {
            3 * m
        } else {
            4 * m
        }) by (nonlinear_arith)
            requires
                0 <= k <= 4,
        ;
    }
}

} // verus!
