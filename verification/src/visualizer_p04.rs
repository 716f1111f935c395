//! Frame computation for the grid-erosion animation: neighbour counts, the
//! cells each step removes, and the palette-indexed pixel buffer of a
//! frame. Encoding the frames into files is left to the surrounding
//! program.
use crate::p_04::{accessible, grid_wf, nb_count, view_grid};
use vstd::prelude::*;

verus! {

/// How many of the eight neighbours of `(x, y)` hold rocks.
pub fn get_neighbor_count(grid: &Vec<Vec<char>>, x: usize, y: usize) -> (count: u8)
    requires
        grid_wf(view_grid(grid@)),
        x < grid@.len(),
        y < grid@[0]@.len(),
    ensures
        count == nb_count(view_grid(grid@), x as int, y as int),
{
    let ghost g = view_grid(grid@);
    proof {
        assert forall|i: int| 0 <= i < grid@.len() implies (#[trigger] grid@[i]@) == g[i] by {}
    }
    let n = grid.len();
    let m = grid[0].len();
    let mut count: u8 = 0;
    if x > 0 {
        if y > 0 && grid[x - 1][y - 1] == '@' {
            count = count + 1;
        }
        if grid[x - 1][y] == '@' {
            count = count + 1;
        }
        if y + 1 < m && grid[x - 1][y + 1] == '@' {
            count = count + 1;
        }
    }
    if y > 0 && grid[x][y - 1] == '@' {
        count = count + 1;
    }
    if y + 1 < m && grid[x][y + 1] == '@' {
        count = count + 1;
    }
    if x + 1 < n {
        if y > 0 && grid[x + 1][y - 1] == '@' {
            count = count + 1;
        }
        if grid[x + 1][y] == '@' {
            count = count + 1;
        }
        if y + 1 < m && grid[x + 1][y + 1] == '@' {
            count = count + 1;
        }
    }
    count
}

/// The accessible cells of a grid, in row-major order, strictly
/// increasing.
pub open spec fn removal_list_ok(g: Seq<Seq<char>>, cells: Seq<(usize, usize)>) -> bool {
    &&& forall|t: int|
        0 <= t < cells.len() ==> accessible(g, (#[trigger] cells[t]).0 as int, cells[t].1 as int)
    &&& forall|i: int, j: int|
        #![trigger accessible(g, i, j)]
        0 <= i < g.len() && 0 <= j < g[0].len() && accessible(g, i, j) ==> cells.contains(
            ((i as usize), (j as usize)),
        )
    &&& forall|t1: int, t2: int|
        0 <= t1 < t2 < cells.len() ==> ((#[trigger] cells[t1]).0 < (#[trigger] cells[t2]).0 || (
        cells[t1].0 == cells[t2].0 && cells[t1].1 < cells[t2].1))
}

/// Every cell's neighbour count, and the list of cells the next erosion
/// step removes.
pub fn enhance_grid(grid: &Vec<Vec<char>>) -> (r: (Vec<Vec<u8>>, Vec<(usize, usize)>))
    requires
        grid_wf(view_grid(grid@)),
    ensures
        r.0@.len() == grid@.len(),
        forall|i: int| 0 <= i < grid@.len() ==> (#[trigger] r.0@[i])@.len() == grid@[0]@.len(),
        forall|i: int, j: int|
            0 <= i < grid@.len() && 0 <= j < grid@[0]@.len() ==> #[trigger] r.0@[i]@[j] == nb_count(
                view_grid(grid@),
                i,
                j,
            ),
        removal_list_ok(view_grid(grid@), r.1@),
{
    let ghost g = view_grid(grid@);
    proof {
        assert forall|i: int| 0 <= i < grid@.len() implies (#[trigger] grid@[i]@) == g[i] by {}
    }
    let n = grid.len();
    let m = grid[0].len();
    let mut neighbor_counts: Vec<Vec<u8>> = Vec::new();
    let mut cells_to_remove: Vec<(usize, usize)> = Vec::new();
    let mut i: usize = 0;
    while i < n
        invariant
            i <= n,
            grid_wf(g),
            g == view_grid(grid@),
            n == g.len(),
            m == g[0].len(),
            neighbor_counts@.len() == i as int,
            forall|q: int| 0 <= q < i ==> (#[trigger] neighbor_counts@[q])@.len() == m,
            forall|q: int, j: int|
                0 <= q < i && 0 <= j < m ==> #[trigger] neighbor_counts@[q]@[j] == nb_count(
                    g,
                    q,
                    j,
                ),
            forall|t: int|
                0 <= t < cells_to_remove@.len() ==> accessible(
                    g,
                    (#[trigger] cells_to_remove@[t]).0 as int,
                    cells_to_remove@[t].1 as int,
                ),
            forall|q: int, j: int|
                #![trigger accessible(g, q, j)]
                0 <= q < i && 0 <= j < m && accessible(g, q, j) ==> cells_to_remove@.contains(
                    ((q as usize), (j as usize)),
                ),
            forall|t1: int, t2: int|
                0 <= t1 < t2 < cells_to_remove@.len() ==> ((#[trigger] cells_to_remove@[t1]).0 < (
                #[trigger] cells_to_remove@[t2]).0 || (cells_to_remove@[t1].0
                    == cells_to_remove@[t2].0 && cells_to_remove@[t1].1 < cells_to_remove@[t2].1)),
            forall|t: int| 0 <= t < cells_to_remove@.len() ==> (#[trigger] cells_to_remove@[t]).0 < i,
        decreases n - i,
    {
        let mut row: Vec<u8> = Vec::new();
        let mut j: usize = 0;
        while j < m
            invariant
                j <= m,
                i < n,
                grid_wf(g),
                g == view_grid(grid@),
                n == g.len(),
                m == g[0].len(),
                row@.len() == j as int,
                forall|q: int| 0 <= q < j ==> #[trigger] row@[q] == nb_count(g, i as int, q),
                forall|t: int|
                    0 <= t < cells_to_remove@.len() ==> accessible(
                        g,
                        (#[trigger] cells_to_remove@[t]).0 as int,
                        cells_to_remove@[t].1 as int,
                    ),
                forall|q: int, jj: int|
                    #![trigger accessible(g, q, jj)]
                    0 <= q < i && 0 <= jj < m && accessible(g, q, jj)
                        ==> cells_to_remove@.contains(((q as usize), (jj as usize))),
                forall|jj: int|
                    #![trigger accessible(g, i as int, jj)]
                    0 <= jj < j && accessible(g, i as int, jj) ==> cells_to_remove@.contains(
                        ((i as usize), (jj as usize)),
                    ),
                forall|t1: int, t2: int|
                    0 <= t1 < t2 < cells_to_remove@.len() ==> ((#[trigger] cells_to_remove@[t1]).0
                        < (#[trigger] cells_to_remove@[t2]).0 || (cells_to_remove@[t1].0
                        == cells_to_remove@[t2].0 && cells_to_remove@[t1].1
                        < cells_to_remove@[t2].1)),
                forall|t: int|
                    0 <= t < cells_to_remove@.len() ==> ((#[trigger] cells_to_remove@[t]).0 < i || (
                    cells_to_remove@[t].0 == i && cells_to_remove@[t].1 < j)),
            decreases m - j,
        {
            let count = get_neighbor_count(grid, i, j);
            row.push(count);
            proof {
                assert(grid@[i as int]@ == g[i as int]);
            }
            if grid[i][j] == '@' && count < 4 {
                let ghost cells0 = cells_to_remove@;
                cells_to_remove.push((i, j));
                proof {
                    assert forall|q: int, jj: int|
                        #![trigger accessible(g, q, jj)]
                        0 <= q < i && 0 <= jj < m && accessible(g, q, jj)
                            implies cells_to_remove@.contains(((q as usize), (jj as usize))) by {
                        let t = choose|t: int|
                            0 <= t < cells0.len() && cells0[t] == ((q as usize), (jj as usize));
                        assert(cells_to_remove@[t] == ((q as usize), (jj as usize)));
                    }
                    assert forall|jj: int|
                        #![trigger accessible(g, i as int, jj)]
                        0 <= jj < j + 1 && accessible(g, i as int, jj)
                            implies cells_to_remove@.contains(((i as usize), (jj as usize))) by {
                        if jj < j {
                            let t = choose|t: int|
                                0 <= t < cells0.len() && cells0[t] == ((i as usize), (jj as usize));
                            assert(cells_to_remove@[t] == ((i as usize), (jj as usize)));
                        } else {
                            assert(cells_to_remove@[cells0.len() as int] == (
                                (i as usize),
                                (jj as usize),
                            ));
                        }
                    }
                }
            }
            j = j + 1;
        }
        neighbor_counts.push(row);
        i = i + 1;
    }
    proof {
        assert(removal_list_ok(g, cells_to_remove@));
    }
    (neighbor_counts, cells_to_remove)
}

/// Erases exactly the listed cells: applied to the list `enhance_grid`
/// returns, this performs one erosion step.
pub fn modify_grid(grid: Vec<Vec<char>>, cells_to_remove: &Vec<(usize, usize)>) -> (out: Vec<
    Vec<char>,
>)
    requires
        grid_wf(view_grid(grid@)),
        removal_list_ok(view_grid(grid@), cells_to_remove@),
    ensures
        crate::p_04::step_rel(view_grid(grid@), view_grid(out@)),
        grid_wf(view_grid(out@)),
{
    let ghost g = view_grid(grid@);
    let ghost cells = cells_to_remove@;
    let mut out = grid;
    let n_rows = out.len();
    let n_cols = out[0].len();
    let mut t: usize = 0;
    proof {
        assert forall|i: int| 0 <= i < out@.len() implies (#[trigger] out@[i]@) == g[i] by {}
        assert(g[0].len() == n_cols);
    }
    while t < cells_to_remove.len()
        invariant
            t <= cells.len(),
            cells == cells_to_remove@,
            grid_wf(g),
            removal_list_ok(g, cells),
            g.len() == n_rows as int,
            g[0].len() == n_cols as int,
            out@.len() == g.len(),
            forall|i: int| 0 <= i < g.len() ==> (#[trigger] out@[i]@).len() == g[i].len(),
            forall|i: int, j: int|
                0 <= i < g.len() && 0 <= j < g[0].len() ==> #[trigger] out@[i]@[j] == (if (exists|
                    tt: int,
                |
                    0 <= tt < t && #[trigger] cells[tt] == ((i as usize), (j as usize))) {
                    '.'
                } else {
                    g[i][j]
                }),
        decreases cells.len() - t,
    {
        let (x, y) = cells_to_remove[t];
        proof {
            assert(accessible(g, x as int, y as int));
        }
        let ghost out0 = out@;
        let row = &mut out[x];
        row.set(y, '.');
        proof {
            assert(out@.len() == out0.len());
            assert(forall|i: int| 0 <= i < out0.len() && i != x ==> #[trigger] out@[i] == out0[i]);
            assert(out@[x as int]@ == out0[x as int]@.update(y as int, '.'));
            assert forall|i: int, j: int|
                0 <= i < g.len() && 0 <= j < g[0].len() implies #[trigger] out@[i]@[j] == (if (
            exists|tt: int|
                0 <= tt < t + 1 && #[trigger] cells[tt] == ((i as usize), (j as usize))) {
                '.'
            } else {
                g[i][j]
            }) by {
                if i == x && j == y {
                    assert(cells[t as int] == ((i as usize), (j as usize)));
                    assert(out@[i]@[j] == '.');
                } else {
                    assert(out@[i]@[j] == out0[i]@[j]);
                    if exists|tt: int|
                        0 <= tt < t && #[trigger] cells[tt] == ((i as usize), (j as usize)) {
                        let tt = choose|tt: int|
                            0 <= tt < t && #[trigger] cells[tt] == ((i as usize), (j as usize));
                        assert(0 <= tt < t + 1 && cells[tt] == ((i as usize), (j as usize)));
                        assert(out0[i]@[j] == '.');
                    } else {
                        if exists|tt: int|
                            0 <= tt < t + 1 && #[trigger] cells[tt] == ((i as usize), (
                            j as usize)) {
                            let tt = choose|tt: int|
                                0 <= tt < t + 1 && #[trigger] cells[tt] == ((i as usize), (
                                j as usize));
                            assert(tt == t as int);
                            assert(cells[tt].0 == x && cells[tt].1 == y);
                            assert((i as usize) == x && (j as usize) == y);
                            assert(i == x as int && j == y as int);
                            assert(false);
                        }
                        assert(out0[i]@[j] == g[i][j]);
                    }
                }
            }
        }
        t = t + 1;
    }
    proof {
        assert forall|i: int, j: int|
            0 <= i < g.len() && 0 <= j < g[0].len() implies #[trigger] view_grid(out@)[i][j] == (
        if accessible(g, i, j) {
            '.'
        } else {
            g[i][j]
        }) by {
            assert(view_grid(out@)[i] == out@[i]@);
            if accessible(g, i, j) {
                assert(cells.contains(((i as usize), (j as usize))));
                let tt = choose|tt: int|
                    0 <= tt < cells.len() && cells[tt] == ((i as usize), (j as usize));
                assert(0 <= tt < t && #[trigger] cells[tt] == ((i as usize), (j as usize)));
            } else {
                if exists|tt: int|
                    0 <= tt < t && #[trigger] cells[tt] == ((i as usize), (j as usize)) {
                    let tt = choose|tt: int|
                        0 <= tt < t && #[trigger] cells[tt] == ((i as usize), (j as usize));
                    assert(accessible(g, cells[tt].0 as int, cells[tt].1 as int));
                    assert(false);
                }
            }
        }
        assert forall|i: int|
            0 <= i < view_grid(out@).len() implies (#[trigger] view_grid(out@)[i]).len()
            == view_grid(out@)[0].len() by {
            assert(view_grid(out@)[i] == out@[i]@);
            assert(view_grid(out@)[0] == out@[0]@);
        }
    }
    out
}

/// The palette index of a cell: 0 empty floor, 1 safe rock, 2 rock about
/// to be removed, 3 rock with fewer than two neighbours, as the animation
/// draws them.
pub open spec fn color_index(c: char, count: int) -> int {
    if c == '@' {
        if count < 2 {
            3
        } else if count < 4 {
            2
        } else {
            1
        }
    } else {
        0
    }
}

/// The palette index of one pixel of a frame: cells are `cell_size` pixels
/// wide, and the first pixel row and column of every cell shows the grid
/// line (index 4) when cells are wider than two pixels.
pub open spec fn pixel_index(g: Seq<Seq<char>>, cs: int, px: int, py: int) -> int {
    let i = py / cs;
    let j = px / cs;
    if (px % cs == 0 || py % cs == 0) && cs > 2 {
        4
    } else {
        color_index(g[i][j], nb_count(g, i, j))
    }
}

/// The palette index of one cell, from its value and neighbour count.
pub fn get_cell_color(val: char, count: u8) -> (idx: u8)
    ensures
        idx == color_index(val, count as int),
{
    if val == '@' {
        if count < 2 {
            3
        } else if count < 4 {
            2
        } else {
            1
        }
    } else {
        0
    }
}

/// The palette-indexed pixel buffer of one frame, row-major: exactly the
/// pixels the animation encodes.
pub fn create_frame(grid: &Vec<Vec<char>>, cell_size: usize) -> (buf: Vec<u8>)
    requires
        grid_wf(view_grid(grid@)),
        cell_size >= 1,
        grid@.len() * cell_size <= usize::MAX,
        grid@[0]@.len() * cell_size <= usize::MAX,
        grid@.len() * cell_size * (grid@[0]@.len() * cell_size) <= usize::MAX,
    ensures
        buf@.len() == grid@.len() * cell_size * (grid@[0]@.len() * cell_size),
        forall|p: int|
            0 <= p < buf@.len() ==> #[trigger] buf@[p] == pixel_index(
                view_grid(grid@),
                cell_size as int,
                p % (grid@[0]@.len() * cell_size) as int,
                p / (grid@[0]@.len() * cell_size) as int,
            ),
{
    let ghost g = view_grid(grid@);
    proof {
        assert forall|i: int| 0 <= i < grid@.len() implies (#[trigger] grid@[i]@) == g[i] by {}
    }
    let n = grid.len();
    let m = grid[0].len();
    let width = m * cell_size;
    let height = n * cell_size;
    let mut buf: Vec<u8> = Vec::new();
    let mut py: usize = 0;
    while py < height
        invariant
            py <= height,
            grid_wf(g),
            g == view_grid(grid@),
            n == g.len(),
            m == g[0].len(),
            cell_size >= 1,
            width == m * cell_size,
            height == n * cell_size,
            height * width <= usize::MAX,
            buf@.len() == py * width,
            forall|p: int|
                0 <= p < buf@.len() ==> #[trigger] buf@[p] == pixel_index(
                    g,
                    cell_size as int,
                    p % width as int,
                    p / width as int,
                ),
        decreases height - py,
    {
        let mut px: usize = 0;
        proof {
            assert(py * width + width <= height * width) by (nonlinear_arith)
                requires
                    py < height,
                    width >= 0,
            ;
        }
        while px < width
            invariant
                px <= width,
                py < height,
                grid_wf(g),
                g == view_grid(grid@),
                n == g.len(),
                m == g[0].len(),
                cell_size >= 1,
                width == m * cell_size,
                height == n * cell_size,
                py * width + width <= height * width <= usize::MAX,
                buf@.len() == py * width + px,
                forall|p: int|
                    0 <= p < buf@.len() ==> #[trigger] buf@[p] == pixel_index(
                        g,
                        cell_size as int,
                        p % width as int,
                        p / width as int,
                    ),
            decreases width - px,
        {
            let i = py / cell_size;
            let j = px / cell_size;
            proof {
                assert(i < n && j < m) by (nonlinear_arith)
                    requires
                        i == py / cell_size,
                        j == px / cell_size,
                        py < height,
                        px < width,
                        height == n * cell_size,
                        width == m * cell_size,
                        cell_size >= 1,
                ;
                assert(grid@[i as int]@ == g[i as int]);
            }
            let val = grid[i][j];
            let count = get_neighbor_count(grid, i, j);
            let color = get_cell_color(val, count);
            let idx = if (px % cell_size == 0 || py % cell_size == 0) && cell_size > 2 {
                4
            } else {
                color
            };
            buf.push(idx);
            proof {
                let p = py * width + px;
                vstd::arithmetic::div_mod::lemma_fundamental_div_mod_converse(
                    p as int,
                    width as int,
                    py as int,
                    px as int,
                );
                assert(buf@[p as int] == idx);
                assert(p % width as int == px as int && p / width as int == py as int);
            }
            px = px + 1;
        }
        proof {
            assert((py + 1) * width == py * width + width) by (nonlinear_arith);
        }
        py = py + 1;
    }
    buf
}

} // verus!
