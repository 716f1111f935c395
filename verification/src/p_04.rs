//! Rolling-rock grid erosion: a cell holding a rock (`'@'`) is accessible
//! when fewer than four of its eight neighbours hold rocks; part one counts
//! accessible rocks, part two erodes the grid to a fixpoint and counts the
//! rocks that were removed.
use vstd::prelude::*;

verus! {

/// A grid as a sequence of row sequences.
pub open spec fn view_grid(g: Seq<Vec<char>>) -> Seq<Seq<char>> {
    g.map_values(|row: Vec<char>| row@)
}

/// Non-empty and rectangular.
pub open spec fn grid_wf(g: Seq<Seq<char>>) -> bool {
    &&& g.len() >= 1
    &&& forall|i: int| 0 <= i < g.len() ==> (#[trigger] g[i]).len() == g[0].len()
}

/// Whether cell `(i, j)` is in range and holds a rock.
pub open spec fn is_roll(g: Seq<Seq<char>>, i: int, j: int) -> bool {
    0 <= i < g.len() && 0 <= j < g[0].len() && g[i][j] == '@'
}

pub open spec fn roll_ind(g: Seq<Seq<char>>, i: int, j: int) -> int {
    if is_roll(g, i, j) {
        1
    } else {
        0
    }
}

/// How many of the eight neighbours of `(x, y)` hold rocks.
pub open spec fn nb_count(g: Seq<Seq<char>>, x: int, y: int) -> int {
    roll_ind(g, x - 1, y - 1) + roll_ind(g, x - 1, y) + roll_ind(g, x - 1, y + 1) + roll_ind(
        g,
        x,
        y - 1,
    ) + roll_ind(g, x, y + 1) + roll_ind(g, x + 1, y - 1) + roll_ind(g, x + 1, y) + roll_ind(
        g,
        x + 1,
        y + 1,
    )
}

/// An accessible rock: present, with fewer than four rock neighbours.
pub open spec fn accessible(g: Seq<Seq<char>>, i: int, j: int) -> bool {
    is_roll(g, i, j) && nb_count(g, i, j) < 4
}

/// Accessible rocks in row `i`, columns `0 .. hi`.
pub open spec fn acc_in_row(g: Seq<Seq<char>>, i: int, hi: int) -> int
    decreases hi,
{
    if hi <= 0 {
        0
    } else {
        acc_in_row(g, i, hi - 1) + (if accessible(g, i, hi - 1) {
            1int
        } else {
            0int
        })
    }
}

/// Accessible rocks in rows `0 .. ihi` (full rows).
pub open spec fn acc_upto(g: Seq<Seq<char>>, ihi: int) -> int
    decreases ihi,
{
    if ihi <= 0 {
        0
    } else {
        acc_upto(g, ihi - 1) + acc_in_row(g, ihi - 1, g[0].len() as int)
    }
}

/// All accessible rocks of the grid.
pub open spec fn acc_count(g: Seq<Seq<char>>) -> int {
    acc_upto(g, g.len() as int)
}

proof fn lemma_acc_in_row_bound(g: Seq<Seq<char>>, i: int, hi: int)
    requires
        hi >= 0,
    ensures
        0 <= acc_in_row(g, i, hi) <= hi,
    decreases hi,
{
    if hi > 0 {
        lemma_acc_in_row_bound(g, i, hi - 1);
    }
}

proof fn lemma_acc_upto_bound(g: Seq<Seq<char>>, ihi: int)
    requires
        ihi >= 0,
    ensures
        0 <= acc_upto(g, ihi) <= ihi * g[0].len(),
    decreases ihi,
{
    if ihi > 0 {
        lemma_acc_upto_bound(g, ihi - 1);
        lemma_acc_in_row_bound(g, ihi - 1, g[0].len() as int);
        assert((ihi - 1) * g[0].len() + g[0].len() == ihi * g[0].len()) by (nonlinear_arith);
    }
}

/// How many of the eight neighbours of `(x, y)` hold rocks.
pub fn get_neighbour_rolls(grid: &Vec<Vec<char>>, x: usize, y: usize) -> (n_count: u64)
    requires
        grid_wf(view_grid(grid@)),
        x < grid@.len(),
        y < grid@[0]@.len(),
    ensures
        n_count == nb_count(view_grid(grid@), x as int, y as int),
{
    let ghost g = view_grid(grid@);
    proof {
        assert forall|i: int| 0 <= i < grid@.len() implies (#[trigger] grid@[i]@) == g[i] by {}
    }
    let n = grid.len();
    let m = grid[0].len();
    let mut n_count: u64 = 0;
    if x > 0 {
        if y > 0 && grid[x - 1][y - 1] == '@' {
            n_count = n_count + 1;
        }
        if grid[x - 1][y] == '@' {
            n_count = n_count + 1;
        }
        if y + 1 < m && grid[x - 1][y + 1] == '@' {
            n_count = n_count + 1;
        }
    }
    if y > 0 && grid[x][y - 1] == '@' {
        n_count = n_count + 1;
    }
    if y + 1 < m && grid[x][y + 1] == '@' {
        n_count = n_count + 1;
    }
    if x + 1 < n {
        if y > 0 && grid[x + 1][y - 1] == '@' {
            n_count = n_count + 1;
        }
        if grid[x + 1][y] == '@' {
            n_count = n_count + 1;
        }
        if y + 1 < m && grid[x + 1][y + 1] == '@' {
            n_count = n_count + 1;
        }
    }
    n_count
}

/// Counts the accessible rocks of the whole grid.
pub fn part1_helper(grid: &Vec<Vec<char>>) -> (count: u64)
    requires
        grid_wf(view_grid(grid@)),
        grid@.len() * grid@[0]@.len() <= u64::MAX,
    ensures
        count == acc_count(view_grid(grid@)),
{
    let ghost g = view_grid(grid@);
    let n = grid.len();
    let m = grid[0].len();
    let mut count: u64 = 0;
    let mut i: usize = 0;
    while i < n
        invariant
            i <= n,
            grid_wf(g),
            g == view_grid(grid@),
            n == g.len(),
            m == g[0].len(),
            n * m <= u64::MAX,
            count == acc_upto(g, i as int),
        decreases n - i,
    {
        let mut j: usize = 0;
        let ghost row_base = count as int;
        while j < m
            invariant
                j <= m,
                i < n,
                grid_wf(g),
                g == view_grid(grid@),
                n == g.len(),
                m == g[0].len(),
                n * m <= u64::MAX,
                row_base == acc_upto(g, i as int),
                count == row_base + acc_in_row(g, i as int, j as int),
            decreases m - j,
        {
            proof {
                lemma_acc_upto_bound(g, i as int);
                lemma_acc_in_row_bound(g, i as int, j as int);
                assert(i * m + j < n * m) by (nonlinear_arith)
                    requires
                        0 <= i < n,
                        0 <= j < m,
                ;
            }
            proof {
                assert(grid@[i as int]@ == g[i as int]);
            }
            if grid[i][j] == '@' {
                let n_rolls = get_neighbour_rolls(grid, i, j);
                if n_rolls < 4 {
                    count = count + 1;
                }
            }
            j = j + 1;
        }
        i = i + 1;
    }
    count
}

/// A cell with its neighbour-rock count; the value is the cell's
/// character as a code point (a `char` field would not carry its value
/// through `Vec` reasoning here).
#[derive(Clone, Copy)]
pub struct CellState {
    pub val: u32,
    pub n_rolls: u64,
}

/// The enhanced grid records every cell's value and neighbour count.
pub open spec fn enhanced_ok(cells: Seq<Vec<CellState>>, g: Seq<Seq<char>>) -> bool {
    &&& cells.len() == g.len()
    &&& forall|i: int| 0 <= i < g.len() ==> (#[trigger] cells[i])@.len() == g[0].len()
    &&& forall|i: int, j: int|
        0 <= i < g.len() && 0 <= j < g[0].len() ==> (#[trigger] cells[i]@[j]).val == g[i][j] as u32
            && cells[i]@[j].n_rolls == nb_count(g, i, j)
}

/// Computes every cell's state and the number of accessible rocks.
#[verifier::rlimit(60)]
pub fn enhance_grid(grid: &Vec<Vec<char>>) -> (r: (Vec<Vec<CellState>>, u64))
    requires
        grid_wf(view_grid(grid@)),
        grid@.len() * grid@[0]@.len() <= u64::MAX,
    ensures
        enhanced_ok(r.0@, view_grid(grid@)),
        r.1 == acc_count(view_grid(grid@)),
{
    let ghost g = view_grid(grid@);
    let n = grid.len();
    let m = grid[0].len();
    let mut num_accessible: u64 = 0;
    let mut cells: Vec<Vec<CellState>> = Vec::new();
    let mut i: usize = 0;
    while i < n
        invariant
            i <= n,
            grid_wf(g),
            g == view_grid(grid@),
            n == g.len(),
            m == g[0].len(),
            n * m <= u64::MAX,
            cells@.len() == i as int,
            forall|q: int| 0 <= q < i ==> (#[trigger] cells@[q])@.len() == m,
            forall|q: int, j: int|
                0 <= q < i && 0 <= j < m ==> (#[trigger] cells@[q]@[j]).val == g[q][j] as u32
                    && cells@[q]@[j].n_rolls == nb_count(g, q, j),
            num_accessible == acc_upto(g, i as int),
        decreases n - i,
    {
        let mut row: Vec<CellState> = Vec::new();
        let mut j: usize = 0;
        let ghost row_base = num_accessible as int;
        while j < m
            invariant
                j <= m,
                i < n,
                grid_wf(g),
                g == view_grid(grid@),
                n == g.len(),
                m == g[0].len(),
                n * m <= u64::MAX,
                row@.len() == j as int,
                forall|q: int|
                    0 <= q < j ==> (#[trigger] row@[q]).val == g[i as int][q] as u32
                        && row@[q].n_rolls == nb_count(g, i as int, q),
                row_base == acc_upto(g, i as int),
                num_accessible == row_base + acc_in_row(g, i as int, j as int),
            decreases m - j,
        {
            proof {
                lemma_acc_upto_bound(g, i as int);
                lemma_acc_in_row_bound(g, i as int, j as int);
                assert(i * m + j < n * m) by (nonlinear_arith)
                    requires
                        0 <= i < n,
                        0 <= j < m,
                ;
            }
            proof {
                assert(grid@[i as int]@ == g[i as int]);
            }
            let n_rolls = get_neighbour_rolls(grid, i, j);
            let val = grid[i][j];
            if val == '@' && n_rolls < 4 {
                num_accessible = num_accessible + 1;
            }
            let cs = CellState { val: val as u32, n_rolls: n_rolls };
            row.push(cs);
            proof {
                assert(g[i as int].len() == m);
                assert(g[i as int][j as int] == grid@[i as int]@[j as int]);
                assert(row@[j as int] == cs);
                assert(accessible(g, i as int, j as int) <==> (g[i as int][j as int] == '@'
                    && nb_count(g, i as int, j as int) < 4));
            }
            j = j + 1;
        }
        cells.push(row);
        i = i + 1;
    }
    (cells, num_accessible)
}

/// One erosion step: the accessible rocks of `g` become floor.
pub open spec fn step_rel(g: Seq<Seq<char>>, g2: Seq<Seq<char>>) -> bool {
    &&& g2.len() == g.len()
    &&& forall|i: int| 0 <= i < g.len() ==> (#[trigger] g2[i]).len() == g[i].len()
    &&& forall|i: int, j: int|
        0 <= i < g.len() && 0 <= j < g[0].len() ==> #[trigger] g2[i][j] == (if accessible(g, i, j) {
            '.'
        } else {
            g[i][j]
        })
}

/// Erases every cell the enhanced grid marks as accessible.
pub fn modify_grid(grid: Vec<Vec<char>>, enhanced_grid: Vec<Vec<CellState>>) -> (out: Vec<
    Vec<char>,
>)
    requires
        grid_wf(view_grid(grid@)),
        enhanced_ok(enhanced_grid@, view_grid(grid@)),
    ensures
        step_rel(view_grid(grid@), view_grid(out@)),
        grid_wf(view_grid(out@)),
{
    let ghost g = view_grid(grid@);
    let mut out = grid;
    let n = out.len();
    let mut i: usize = 0;
    while i < n
        invariant
            i <= n,
            grid_wf(g),
            n == g.len(),
            out@.len() == n,
            enhanced_ok(enhanced_grid@, g),
            forall|q: int| i <= q < n ==> (#[trigger] out@[q])@ == g[q],
            forall|q: int| 0 <= q < i ==> (#[trigger] out@[q])@.len() == g[q].len(),
            forall|q: int, j: int|
                0 <= q < i && 0 <= j < g[0].len() ==> #[trigger] out@[q]@[j] == (if accessible(
                    g,
                    q,
                    j,
                ) {
                    '.'
                } else {
                    g[q][j]
                }),
        decreases n - i,
    {
        let m = out[i].len();
        let mut j: usize = 0;
        while j < m
            invariant
                j <= m,
                i < n,
                grid_wf(g),
                n == g.len(),
                out@.len() == n,
                m == g[i as int].len(),
                m == g[0].len(),
                enhanced_ok(enhanced_grid@, g),
                forall|q: int| i < q < n ==> (#[trigger] out@[q])@ == g[q],
                out@[i as int]@.len() == m,
                forall|jj: int| j <= jj < m ==> #[trigger] out@[i as int]@[jj] == g[i as int][jj],
                forall|jj: int|
                    0 <= jj < j ==> #[trigger] out@[i as int]@[jj] == (if accessible(
                        g,
                        i as int,
                        jj,
                    ) {
                        '.'
                    } else {
                        g[i as int][jj]
                    }),
                forall|q: int| 0 <= q < i ==> (#[trigger] out@[q])@.len() == g[q].len(),
                forall|q: int, jj: int|
                    0 <= q < i && 0 <= jj < g[0].len() ==> #[trigger] out@[q]@[jj] == (if
                accessible(g, q, jj) {
                    '.'
                } else {
                    g[q][jj]
                }),
            decreases m - j,
        {
            let cv = out[i][j];
            let k = enhanced_grid[i][j].n_rolls;
            if cv == '@' && k < 4 {
                let row = &mut out[i];
                row.set(j, '.');
            }
            j = j + 1;
        }
        i = i + 1;
    }
    out
}











/// Rocks in row `i`, columns `0 .. hi`.
pub open spec fn rocks_in_row(g: Seq<Seq<char>>, i: int, hi: int) -> int
    decreases hi,
{
    if hi <= 0 {
        0
    } else {
        rocks_in_row(g, i, hi - 1) + roll_ind(g, i, hi - 1)
    }
}

pub open spec fn rocks_upto(g: Seq<Seq<char>>, ihi: int) -> int
    decreases ihi,
{
    if ihi <= 0 {
        0
    } else {
        rocks_upto(g, ihi - 1) + rocks_in_row(g, ihi - 1, g[0].len() as int)
    }
}

/// All rocks of the grid.
pub open spec fn rocks(g: Seq<Seq<char>>) -> int {
    rocks_upto(g, g.len() as int)
}

proof fn lemma_rocks_nonneg(g: Seq<Seq<char>>, i: int, hi: int)
    ensures
        rocks_in_row(g, i, hi) >= 0,
    decreases hi,
{
    if hi > 0 {
        lemma_rocks_nonneg(g, i, hi - 1);
    }
}

proof fn lemma_rocks_upto_nonneg(g: Seq<Seq<char>>, ihi: int)
    ensures
        rocks_upto(g, ihi) >= 0,
    decreases ihi,
{
    if ihi > 0 {
        lemma_rocks_upto_nonneg(g, ihi - 1);
        lemma_rocks_nonneg(g, ihi - 1, g[0].len() as int);
    }
}

proof fn lemma_step_rocks_row(g: Seq<Seq<char>>, g2: Seq<Seq<char>>, i: int, hi: int)
    requires
        grid_wf(g),
        step_rel(g, g2),
        0 <= i < g.len(),
        hi <= g[0].len(),
    ensures
        rocks_in_row(g2, i, hi) == rocks_in_row(g, i, hi) - acc_in_row(g, i, hi),
    decreases hi,
{
    if hi > 0 {
        lemma_step_rocks_row(g, g2, i, hi - 1);
        assert(g2[i][hi - 1] == (if accessible(g, i, hi - 1) {
            '.'
        } else {
            g[i][hi - 1]
        }));
    }
}

/// One erosion step removes exactly the accessible rocks.
proof fn lemma_step_rocks_upto(g: Seq<Seq<char>>, g2: Seq<Seq<char>>, ihi: int)
    requires
        grid_wf(g),
        step_rel(g, g2),
        ihi <= g.len(),
    ensures
        rocks_upto(g2, ihi) == rocks_upto(g, ihi) - acc_upto(g, ihi),
    decreases ihi,
{
    if ihi > 0 {
        lemma_step_rocks_upto(g, g2, ihi - 1);
        lemma_step_rocks_row(g, g2, ihi - 1, g[0].len() as int);
        assert(g2[0].len() == g[0].len());
    }
}

/// Cells that were rocks in `g0` and are floor in `gf`, row `i`, columns
/// `0 .. hi`.
pub open spec fn diff_in_row(g0: Seq<Seq<char>>, gf: Seq<Seq<char>>, i: int, hi: int) -> int
    decreases hi,
{
    if hi <= 0 {
        0
    } else {
        diff_in_row(g0, gf, i, hi - 1) + (if g0[i][hi - 1] == '@' && gf[i][hi - 1] == '.' {
            1int
        } else {
            0int
        })
    }
}

pub open spec fn diff_upto(g0: Seq<Seq<char>>, gf: Seq<Seq<char>>, ihi: int) -> int
    decreases ihi,
{
    if ihi <= 0 {
        0
    } else {
        diff_upto(g0, gf, ihi - 1) + diff_in_row(g0, gf, ihi - 1, g0[0].len() as int)
    }
}

/// How many rocks of `g0` have become floor in `gf`.
pub open spec fn diff_count(g0: Seq<Seq<char>>, gf: Seq<Seq<char>>) -> int {
    diff_upto(g0, gf, g0.len() as int)
}

proof fn lemma_diff_in_row_bound(g0: Seq<Seq<char>>, gf: Seq<Seq<char>>, i: int, hi: int)
    requires
        hi >= 0,
    ensures
        0 <= diff_in_row(g0, gf, i, hi) <= hi,
    decreases hi,
{
    if hi > 0 {
        lemma_diff_in_row_bound(g0, gf, i, hi - 1);
    }
}

/// Counts the cells that were rocks in `original` and are floor in `grid`.
pub fn part2_helper(grid: &Vec<Vec<char>>, original: &Vec<Vec<char>>) -> (count: u64)
    requires
        grid_wf(view_grid(original@)),
        view_grid(grid@).len() == view_grid(original@).len(),
        forall|i: int|
            0 <= i < grid@.len() ==> (#[trigger] grid@[i]@).len() == original@[0]@.len(),
        original@.len() * original@[0]@.len() <= u64::MAX,
    ensures
        count == diff_count(view_grid(original@), view_grid(grid@)),
{
    let ghost g0 = view_grid(original@);
    let ghost gf = view_grid(grid@);
    proof {
        assert forall|i: int| 0 <= i < original@.len() implies (#[trigger] original@[i]@)
            == g0[i] by {}
        assert forall|i: int| 0 <= i < grid@.len() implies (#[trigger] grid@[i]@) == gf[i] by {}
    }
    let n = original.len();
    let m = original[0].len();
    let mut count: u64 = 0;
    let mut i: usize = 0;
    while i < n
        invariant
            i <= n,
            grid_wf(g0),
            g0 == view_grid(original@),
            gf == view_grid(grid@),
            gf.len() == n,
            n == g0.len(),
            m == g0[0].len(),
            forall|q: int| 0 <= q < n ==> (#[trigger] gf[q]).len() == m,
            n * m <= u64::MAX,
            count == diff_upto(g0, gf, i as int),
        decreases n - i,
    {
        let mut j: usize = 0;
        let ghost row_base = count as int;
        while j < m
            invariant
                j <= m,
                i < n,
                grid_wf(g0),
                g0 == view_grid(original@),
                gf == view_grid(grid@),
                gf.len() == n,
                n == g0.len(),
                m == g0[0].len(),
                forall|q: int| 0 <= q < n ==> (#[trigger] gf[q]).len() == m,
                n * m <= u64::MAX,
                row_base == diff_upto(g0, gf, i as int),
                count == row_base + diff_in_row(g0, gf, i as int, j as int),
            decreases m - j,
        {
            proof {
                lemma_diff_in_row_bound(g0, gf, i as int, j as int);
                lemma_diff_upto_bound(g0, gf, i as int);
                assert(i * m + j < n * m) by (nonlinear_arith)
                    requires
                        0 <= i < n,
                        0 <= j < m,
                ;
                assert(original@[i as int]@ == g0[i as int]);
                assert(grid@[i as int]@ == gf[i as int]);
            }
            if original[i][j] == '@' && grid[i][j] == '.' {
                count = count + 1;
            }
            j = j + 1;
        }
        i = i + 1;
    }
    count
}

proof fn lemma_diff_upto_bound(g0: Seq<Seq<char>>, gf: Seq<Seq<char>>, ihi: int)
    requires
        ihi >= 0,
    ensures
        0 <= diff_upto(g0, gf, ihi) <= ihi * g0[0].len(),
    decreases ihi,
{
    if ihi > 0 {
        lemma_diff_upto_bound(g0, gf, ihi - 1);
        lemma_diff_in_row_bound(g0, gf, ihi - 1, g0[0].len() as int);
        assert((ihi - 1) * g0[0].len() + g0[0].len() == ihi * g0[0].len()) by (nonlinear_arith);
    }
}

/// Copies a grid row by row.
fn copy_grid(grid: &Vec<Vec<char>>) -> (out: Vec<Vec<char>>)
    ensures
        view_grid(out@) == view_grid(grid@),
        out@.len() == grid@.len(),
{
    let mut out: Vec<Vec<char>> = Vec::new();
    let mut i: usize = 0;
    while i < grid.len()
        invariant
            i <= grid@.len(),
            out@.len() == i as int,
            forall|q: int| 0 <= q < i ==> (#[trigger] out@[q])@ == grid@[q]@,
        decreases grid@.len() - i,
    {
        let src = &grid[i];
        let mut row: Vec<char> = Vec::new();
        let mut j: usize = 0;
        while j < src.len()
            invariant
                j <= src@.len(),
                row@ == src@.take(j as int),
            decreases src@.len() - j,
        {
            row.push(src[j]);
            proof {
                assert(row@ =~= src@.take(j + 1));
            }
            j = j + 1;
        }
        proof {
            assert(src@.take(src@.len() as int) =~= src@);
        }
        out.push(row);
        i = i + 1;
    }
    proof {
        assert(view_grid(out@) =~= view_grid(grid@));
    }
    out
}

/// A full erosion history: each step erases the accessible rocks of a grid
/// that still has some, and the last grid has none.
pub open spec fn evolution(g0: Seq<Seq<char>>, tr: Seq<Seq<Seq<char>>>) -> bool {
    &&& tr.len() >= 1
    &&& tr[0] == g0
    &&& forall|t: int|
        0 <= t < tr.len() - 1 ==> acc_count(#[trigger] tr[t]) > 0 && step_rel(tr[t], tr[t + 1])
    &&& acc_count(tr.last()) == 0
}

/// Erodes the grid until no rock is accessible, and reports how many of
/// the original rocks were removed: the unique erosion history of the
/// input decides the result.
pub fn part2(grid: Vec<Vec<char>>) -> (count: u64)
    requires
        grid_wf(view_grid(grid@)),
        grid@.len() * grid@[0]@.len() <= u64::MAX,
    ensures
        exists|tr: Seq<Seq<Seq<char>>>|
            #[trigger] evolution(view_grid(grid@), tr) && count == diff_count(tr[0], tr.last()),
{
    let original = copy_grid(&grid);
    let ghost g0 = view_grid(grid@);
    let mut grid = grid;
    let ghost mut tr: Seq<Seq<Seq<char>>> = seq![g0];
    loop
        invariant
            grid_wf(g0),
            g0 == view_grid(original@),
            grid_wf(view_grid(grid@)),
            view_grid(grid@).len() == g0.len(),
            forall|i: int|
                0 <= i < grid@.len() ==> (#[trigger] view_grid(grid@)[i]).len() == g0[0].len(),
            g0.len() * g0[0].len() <= u64::MAX,
            tr.len() >= 1,
            tr[0] == g0,
            tr.last() == view_grid(grid@),
            forall|t: int|
                0 <= t < tr.len() - 1 ==> acc_count(#[trigger] tr[t]) > 0 && step_rel(
                    tr[t],
                    tr[t + 1],
                ),
        ensures
            acc_count(view_grid(grid@)) == 0,
            evolution(g0, tr),
            tr.last() == view_grid(grid@),
            g0 == view_grid(original@),
            view_grid(grid@).len() == g0.len(),
            forall|i: int|
                0 <= i < grid@.len() ==> (#[trigger] view_grid(grid@)[i]).len() == g0[0].len(),
            g0.len() * g0[0].len() <= u64::MAX,
        decreases rocks(view_grid(grid@)),
    {
        let (enhanced_grid, num_accessible) = enhance_grid(&grid);
        if num_accessible == 0 {
            break ;
        }
        let ghost g_before = view_grid(grid@);
        grid = modify_grid(grid, enhanced_grid);
        proof {
            lemma_step_rocks_upto(g_before, view_grid(grid@), g_before.len() as int);
            lemma_rocks_upto_nonneg(view_grid(grid@), view_grid(grid@).len() as int);
            assert(view_grid(grid@).len() == g_before.len());
            assert(rocks(view_grid(grid@)) == rocks(g_before) - acc_count(g_before));
            tr = tr.push(view_grid(grid@));
            assert(tr.last() == view_grid(grid@));
            assert(forall|t: int|
                0 <= t < tr.len() - 2 ==> acc_count(#[trigger] tr[t]) > 0 && step_rel(
                    tr[t],
                    tr[t + 1],
                ));
            assert(tr[tr.len() - 2] == g_before);
        }
    }
    proof {
        assert forall|i: int|
            0 <= i < grid@.len() implies (#[trigger] grid@[i]@).len() == original@[0]@.len() by {
            assert(view_grid(grid@)[i] == grid@[i]@);
            assert(view_grid(original@)[0] == original@[0]@);
        }
    }
    let count = part2_helper(&grid, &original);
    proof {
        assert(diff_count(tr[0], tr.last()) == diff_count(
            view_grid(original@),
            view_grid(grid@),
        ));
    }
    count
}

} // verus!
