//! Beam splitting: a beam starts at the grid's `S` marker and falls row by
//! row; an obstacle (`'^'`) under an active column splits the beam into
//! its two neighbour columns. Part one counts split events, part two
//! counts the beam paths that reach the bottom.
use vstd::prelude::*;

verus! {

/// A grid as a sequence of row sequences.
pub open spec fn bview(g: Seq<Vec<char>>) -> Seq<Seq<char>> {
    g.map_values(|row: Vec<char>| row@)
}

pub open spec fn bgrid_wf(g: Seq<Seq<char>>) -> bool {
    &&& g.len() >= 1
    &&& forall|i: int| 0 <= i < g.len() ==> (#[trigger] g[i]).len() == g[0].len()
}

/// Whether row `r` has an obstacle at column `c`.
pub open spec fn obstacle(g: Seq<Seq<char>>, r: int, c: int) -> bool {
    0 <= r < g.len() && 0 <= c < g[0].len() && g[r][c] == '^'
}

pub open spec fn row_has_obstacle(g: Seq<Seq<char>>, r: int) -> bool {
    exists|c: int| 0 <= c < g[0].len() && #[trigger] g[r][c] == '^'
}

/// The starting columns: every column holding an `S` anywhere.
pub open spec fn start_col(g: Seq<Seq<char>>, c: int) -> bool {
    exists|i: int| 0 <= i < g.len() && #[trigger] g[i][c] == 'S'
}

pub open spec fn row_has_start(g: Seq<Seq<char>>, i: int) -> bool {
    exists|c: int| 0 <= c < g[0].len() && #[trigger] g[i][c] == 'S'
}

/// The row the scan leaves the beam in: the last row holding an `S`, or 0
/// when there is none.
pub open spec fn start_row(g: Seq<Seq<char>>, upto: int) -> int
    decreases upto,
{
    if upto <= 0 {
        0
    } else if row_has_start(g, upto - 1) {
        upto - 1
    } else {
        start_row(g, upto - 1)
    }
}

/// The active columns after one row step past an obstacle row `r1`: a
/// beam over an obstacle splits into its two neighbour columns, other
/// beams fall straight down.
pub open spec fn step_active(g: Seq<Seq<char>>, r1: int, act: Seq<bool>) -> Seq<bool> {
    Seq::new(
        act.len(),
        |c: int|
            (act[c] && !obstacle(g, r1, c)) || (c + 1 < act.len() && act[c + 1] && obstacle(
                g,
                r1,
                c + 1,
            )) || (c >= 1 && act[c - 1] && obstacle(g, r1, c - 1)),
    )
}

/// Splits in row `r1` among columns `0 .. hi`.
pub open spec fn splits_in_row(g: Seq<Seq<char>>, r1: int, act: Seq<bool>, hi: int) -> int
    decreases hi,
{
    if hi <= 0 {
        0
    } else {
        splits_in_row(g, r1, act, hi - 1) + (if act[hi - 1] && obstacle(g, r1, hi - 1) {
            1int
        } else {
            0int
        })
    }
}

/// Total splits from row `r` down to the bottom.
pub open spec fn sim_splits(g: Seq<Seq<char>>, r: int, act: Seq<bool>) -> int
    decreases g.len() - r,
{
    if r >= g.len() - 1 {
        0
    } else if row_has_obstacle(g, r + 1) {
        splits_in_row(g, r + 1, act, g[0].len() as int) + sim_splits(
            g,
            r + 1,
            step_active(g, r + 1, act),
        )
    } else {
        sim_splits(g, r + 1, act)
    }
}

proof fn lemma_start_row_bound(g: Seq<Seq<char>>, upto: int)
    ensures
        0 <= start_row(g, upto),
        upto >= 1 ==> start_row(g, upto) < upto,
    decreases upto,
{
    if upto > 0 {
        lemma_start_row_bound(g, upto - 1);
    }
}

proof fn lemma_splits_in_row_bound(g: Seq<Seq<char>>, r1: int, act: Seq<bool>, hi: int)
    requires
        hi >= 0,
    ensures
        0 <= splits_in_row(g, r1, act, hi) <= hi,
    decreases hi,
{
    if hi > 0 {
        lemma_splits_in_row_bound(g, r1, act, hi - 1);
    }
}

proof fn lemma_sim_splits_bound(g: Seq<Seq<char>>, r: int, act: Seq<bool>)
    requires
        0 <= r <= g.len(),
    ensures
        0 <= sim_splits(g, r, act) <= (g.len() - r) * g[0].len(),
    decreases g.len() - r,
{
    if r >= g.len() - 1 {
        assert((g.len() - r) * g[0].len() >= 0) by (nonlinear_arith)
            requires
                r <= g.len(),
                g[0].len() >= 0,
        ;
    } else {
        let act2 = if row_has_obstacle(g, r + 1) {
            step_active(g, r + 1, act)
        } else {
            act
        };
        lemma_sim_splits_bound(g, r + 1, act2);
        lemma_splits_in_row_bound(g, r + 1, act, g[0].len() as int);
        assert((g.len() - r - 1) * g[0].len() + g[0].len() == (g.len() - r) * g[0].len())
            by (nonlinear_arith);
    }
}

/// Finds the starting beam: the columns marked `S`, and the last row
/// holding one.
fn find_start(grid: &Vec<Vec<char>>) -> (r: (Vec<bool>, usize))
    requires
        bgrid_wf(bview(grid@)),
    ensures
        r.0@.len() == grid@[0]@.len(),
        forall|c: int|
            0 <= c < r.0@.len() ==> #[trigger] r.0@[c] == start_col(bview(grid@), c),
        r.1 == start_row(bview(grid@), bview(grid@).len() as int),
    decreases grid@.len(),
{
    let ghost g = bview(grid@);
    proof {
        assert forall|i: int| 0 <= i < grid@.len() implies (#[trigger] grid@[i]@) == g[i] by {}
    }
    let n = grid.len();
    let m = grid[0].len();
    let mut active: Vec<bool> = Vec::new();
    let mut c: usize = 0;
    while c < m
        invariant
            c <= m,
            bgrid_wf(g),
            g == bview(grid@),
            n == g.len(),
            m == g[0].len(),
            active@.len() == c as int,
            forall|q: int| 0 <= q < c ==> #[trigger] active@[q] == start_col(g, q),
        decreases m - c,
    {
        let mut found = false;
        let mut i: usize = 0;
        while i < n
            invariant
                i <= n,
                c < m,
                bgrid_wf(g),
                g == bview(grid@),
                n == g.len(),
                m == g[0].len(),
                found <==> exists|q: int| 0 <= q < i && #[trigger] g[q][c as int] == 'S',
            decreases n - i,
        {
            proof {
                assert(grid@[i as int]@ == g[i as int]);
            }
            if grid[i][c] == 'S' {
                found = true;
            }
            i = i + 1;
        }
        active.push(found);
        c = c + 1;
    }
    let mut beam_row: usize = 0;
    let mut i: usize = 0;
    while i < n
        invariant
            i <= n,
            bgrid_wf(g),
            g == bview(grid@),
            n == g.len(),
            m == g[0].len(),
            beam_row == start_row(g, i as int),
        decreases n - i,
    {
        let mut has: bool = false;
        let mut c2: usize = 0;
        while c2 < m
            invariant
                c2 <= m,
                i < n,
                bgrid_wf(g),
                g == bview(grid@),
                n == g.len(),
                m == g[0].len(),
                has <==> exists|q: int| 0 <= q < c2 && #[trigger] g[i as int][q] == 'S',
            decreases m - c2,
        {
            proof {
                assert(grid@[i as int]@ == g[i as int]);
            }
            if grid[i][c2] == 'S' {
                has = true;
            }
            c2 = c2 + 1;
        }
        if has {
            beam_row = i;
        }
        proof {
            assert(row_has_start(g, i as int) <==> has);
        }
        i = i + 1;
    }
    (active, beam_row)
}

/// Counts every split event as the beam falls to the bottom row.
pub fn part_1(grid: &Vec<Vec<char>>) -> (splits: usize)
    requires
        bgrid_wf(bview(grid@)),
        bview(grid@).len() * bview(grid@)[0].len() <= usize::MAX,
    ensures
        splits == sim_splits(
            bview(grid@),
            start_row(bview(grid@), bview(grid@).len() as int),
            Seq::new(bview(grid@)[0].len(), |c: int| start_col(bview(grid@), c)),
        ),
{
    let ghost g = bview(grid@);
    proof {
        assert forall|i: int| 0 <= i < grid@.len() implies (#[trigger] grid@[i]@) == g[i] by {}
    }
    let n = grid.len();
    let m = grid[0].len();
    let (active0, beam_row0) = find_start(grid);
    let mut active = active0;
    let mut beam_row = beam_row0;
    let mut splits: usize = 0;
    proof {
        assert(active@ =~= Seq::new(g[0].len(), |c: int| start_col(g, c)));
        lemma_start_row_bound(g, n as int);
        lemma_sim_splits_bound(g, beam_row as int, active@);
        assert((n - start_row(g, n as int)) * m <= n * m) by (nonlinear_arith)
            requires
                0 <= start_row(g, n as int),
                m >= 0,
                n >= 0,
        ;
    }
    while beam_row + 1 < n
        invariant
            bgrid_wf(g),
            g == bview(grid@),
            n == g.len(),
            m == g[0].len(),
            n * m <= usize::MAX,
            beam_row < n,
            active@.len() == m,
            splits + sim_splits(g, beam_row as int, active@) == sim_splits(
                g,
                start_row(g, n as int),
                Seq::new(g[0].len(), |c: int| start_col(g, c)),
            ),
            0 <= splits,
            sim_splits(g, beam_row as int, active@) >= 0,
            splits + sim_splits(g, beam_row as int, active@) <= (n - start_row(g, n as int)) * m,
            (n - start_row(g, n as int)) * m <= n * m,
        decreases n - beam_row,
    {
        // Does the next row hold any obstacle?
        let mut has_obs = false;
        let mut c: usize = 0;
        while c < m
            invariant
                c <= m,
                beam_row + 1 < n,
                bgrid_wf(g),
                g == bview(grid@),
                n == g.len(),
                m == g[0].len(),
                has_obs <==> exists|q: int|
                    0 <= q < c && #[trigger] g[beam_row + 1][q] == '^',
            decreases m - c,
        {
            proof {
                assert(grid@[beam_row + 1]@ == g[beam_row + 1]);
            }
            if grid[beam_row + 1][c] == '^' {
                has_obs = true;
            }
            c = c + 1;
        }
        proof {
            assert(row_has_obstacle(g, beam_row + 1) <==> has_obs);
            lemma_sim_splits_bound(g, beam_row as int, active@);
        }
        if has_obs {
            let mut new_active: Vec<bool> = Vec::new();
            let mut row_splits: usize = 0;
            let mut c2: usize = 0;
            proof {
                lemma_splits_in_row_bound(g, beam_row + 1, active@, m as int);
                lemma_sim_splits_bound(g, beam_row + 1, step_active(g, beam_row + 1, active@));
            }
            while c2 < m
                invariant
                    c2 <= m,
                    beam_row + 1 < n,
                    bgrid_wf(g),
                    g == bview(grid@),
                    n == g.len(),
                    m == g[0].len(),
                    active@.len() == m,
                    new_active@.len() == c2 as int,
                    forall|q: int|
                        0 <= q < c2 ==> #[trigger] new_active@[q] == step_active(
                            g,
                            beam_row + 1,
                            active@,
                        )[q],
                    row_splits == splits_in_row(g, beam_row + 1, active@, c2 as int),
                    row_splits <= c2,
                decreases m - c2,
            {
                proof {
                    assert(grid@[beam_row + 1]@ == g[beam_row + 1]);
                }
                let obs_here = grid[beam_row + 1][c2] == '^';
                if active[c2] && obs_here {
                    row_splits = row_splits + 1;
                }
                let from_left = c2 >= 1 && active[c2 - 1] && grid[beam_row + 1][c2 - 1] == '^';
                let from_right = c2 + 1 < m && active[c2 + 1] && grid[beam_row + 1][c2 + 1]
                    == '^';
                let stays = active[c2] && !obs_here;
                new_active.push(stays || from_right || from_left);
                c2 = c2 + 1;
            }
            proof {
                assert(new_active@ =~= step_active(g, beam_row + 1, active@));
                lemma_splits_in_row_bound(g, beam_row + 1, active@, m as int);
                assert(splits + sim_splits(g, beam_row as int, active@) <= usize::MAX) by {
                    assert((n - start_row(g, n as int)) * m <= n * m);
                }
            }
            splits = splits + row_splits;
            active = new_active;
        }
        beam_row = beam_row + 1;
    }
    splits
}

/// Counts as mathematical integers.
pub open spec fn cnt_ints(s: Seq<usize>) -> Seq<int> {
    Seq::new(s.len(), |i: int| s[i] as int)
}

/// One path starts in every `S` column.
pub open spec fn init_counts(g: Seq<Seq<char>>) -> Seq<int> {
    Seq::new(
        g[0].len(),
        |c: int|
            if start_col(g, c) {
                1int
            } else {
                0int
            },
    )
}

/// Path counts after one row step past obstacle row `r1`: a split column
/// hands its count to both neighbours (counts falling off the edge are
/// lost), all other entries stay.
pub open spec fn step_counts(g: Seq<Seq<char>>, r1: int, act: Seq<bool>, cnt: Seq<int>) -> Seq<
    int,
> {
    Seq::new(
        cnt.len(),
        |c: int|
            (if act[c] && obstacle(g, r1, c) {
                0int
            } else {
                cnt[c]
            }) + (if c + 1 < cnt.len() && act[c + 1] && obstacle(g, r1, c + 1) {
                cnt[c + 1]
            } else {
                0int
            }) + (if c >= 1 && act[c - 1] && obstacle(g, r1, c - 1) {
                cnt[c - 1]
            } else {
                0int
            }),
    )
}

/// The path counts when the beam reaches the bottom row.
pub open spec fn sim_counts(g: Seq<Seq<char>>, r: int, act: Seq<bool>, cnt: Seq<int>) -> Seq<int>
    decreases g.len() - r,
{
    if r >= g.len() - 1 {
        cnt
    } else if row_has_obstacle(g, r + 1) {
        sim_counts(g, r + 1, step_active(g, r + 1, act), step_counts(g, r + 1, act, cnt))
    } else {
        sim_counts(g, r + 1, act, cnt)
    }
}

pub open spec fn sum_ints(s: Seq<int>) -> int
    decreases s.len(),
{
    if s.len() == 0 {
        0
    } else {
        sum_ints(s.drop_last()) + s.last()
    }
}

pub open spec fn all_nonneg(s: Seq<int>) -> bool {
    forall|c: int| 0 <= c < s.len() ==> #[trigger] s[c] >= 0
}

/// Every intermediate total of the falling counts fits the machine word.
pub open spec fn counts_fit(g: Seq<Seq<char>>, r: int, act: Seq<bool>, cnt: Seq<int>) -> bool
    decreases g.len() - r,
{
    &&& sum_ints(cnt) <= usize::MAX
    &&& if r >= g.len() - 1 {
        true
    } else if row_has_obstacle(g, r + 1) {
        counts_fit(g, r + 1, step_active(g, r + 1, act), step_counts(g, r + 1, act, cnt))
    } else {
        counts_fit(g, r + 1, act, cnt)
    }
}

proof fn lemma_sum_ints_nonneg(s: Seq<int>)
    requires
        all_nonneg(s),
    ensures
        sum_ints(s) >= 0,
    decreases s.len(),
{
    if s.len() > 0 {
        assert(all_nonneg(s.drop_last()));
        lemma_sum_ints_nonneg(s.drop_last());
    }
}

proof fn lemma_sum_ints_entry(s: Seq<int>, i: int)
    requires
        all_nonneg(s),
        0 <= i < s.len(),
    ensures
        0 <= s[i] <= sum_ints(s),
    decreases s.len(),
{
    assert(all_nonneg(s.drop_last()));
    lemma_sum_ints_nonneg(s.drop_last());
    if i < s.len() - 1 {
        lemma_sum_ints_entry(s.drop_last(), i);
    }
}

proof fn lemma_step_counts_nonneg(g: Seq<Seq<char>>, r1: int, act: Seq<bool>, cnt: Seq<int>)
    requires
        all_nonneg(cnt),
    ensures
        all_nonneg(step_counts(g, r1, act, cnt)),
{
    assert forall|c: int|
        0 <= c < step_counts(g, r1, act, cnt).len() implies #[trigger] step_counts(
        g,
        r1,
        act,
        cnt,
    )[c] >= 0 by {
        if c + 1 < cnt.len() {
            assert(cnt[c + 1] >= 0);
        }
        if c >= 1 {
            assert(cnt[c - 1] >= 0);
        }
        assert(cnt[c] >= 0);
    }
}

/// The partial sums of a prefix of the counts.
pub open spec fn sum_ints_pre(s: Seq<int>, hi: int) -> int
    decreases hi,
{
    if hi <= 0 {
        0
    } else {
        sum_ints_pre(s, hi - 1) + s[hi - 1]
    }
}

proof fn lemma_sum_pre_full(s: Seq<int>, hi: int)
    requires
        0 <= hi <= s.len(),
    ensures
        sum_ints_pre(s, hi) == sum_ints(s.take(hi)),
    decreases hi,
{
    if hi > 0 {
        lemma_sum_pre_full(s, hi - 1);
        assert(s.take(hi).drop_last() =~= s.take(hi - 1));
    }
}

proof fn lemma_sum_pre_bound(s: Seq<int>, hi: int)
    requires
        all_nonneg(s),
        0 <= hi <= s.len(),
    ensures
        0 <= sum_ints_pre(s, hi) <= sum_ints(s),
    decreases s.len() - hi,
{
    if hi == s.len() {
        lemma_sum_pre_full(s, hi);
        assert(s.take(hi) =~= s);
        lemma_sum_ints_nonneg(s);
    } else {
        lemma_sum_pre_bound(s, hi + 1);
        assert(s[hi] >= 0);
        if hi > 0 {
            lemma_sum_pre_full(s, hi);
            assert(all_nonneg(s.take(hi)));
            lemma_sum_ints_nonneg(s.take(hi));
        }
    }
}

/// Counts the beam paths that reach the bottom row: every split doubles a
/// path, paths leaving the grid sideways are lost.
pub fn part_2(grid: &Vec<Vec<char>>) -> (total: usize)
    requires
        bgrid_wf(bview(grid@)),
        bview(grid@).len() * bview(grid@)[0].len() <= usize::MAX,
        counts_fit(
            bview(grid@),
            start_row(bview(grid@), bview(grid@).len() as int),
            Seq::new(bview(grid@)[0].len(), |c: int| start_col(bview(grid@), c)),
            init_counts(bview(grid@)),
        ),
    ensures
        total == sum_ints(
            sim_counts(
                bview(grid@),
                start_row(bview(grid@), bview(grid@).len() as int),
                Seq::new(bview(grid@)[0].len(), |c: int| start_col(bview(grid@), c)),
                init_counts(bview(grid@)),
            ),
        ),
{
    let ghost g = bview(grid@);
    proof {
        assert forall|i: int| 0 <= i < grid@.len() implies (#[trigger] grid@[i]@) == g[i] by {}
    }
    let n = grid.len();
    let m = grid[0].len();
    let (active0, beam_row0) = find_start(grid);
    let mut active = active0;
    let mut beam_row = beam_row0;
    let mut counts: Vec<usize> = Vec::new();
    let mut c0: usize = 0;
    while c0 < m
        invariant
            c0 <= m,
            bgrid_wf(g),
            g == bview(grid@),
            n == g.len(),
            m == g[0].len(),
            active0@.len() == m,
            active@ == active0@,
            forall|q: int| 0 <= q < m ==> #[trigger] active0@[q] == start_col(g, q),
            counts@.len() == c0 as int,
            forall|q: int| 0 <= q < c0 ==> #[trigger] cnt_ints(counts@)[q] == init_counts(g)[q],
        decreases m - c0,
    {
        let ghost counts_prev = counts@;
        if active[c0] {
            counts.push(1);
        } else {
            counts.push(0);
        }
        proof {
            assert forall|q: int|
                0 <= q < c0 + 1 implies #[trigger] cnt_ints(counts@)[q] == init_counts(g)[q] by {
                if q < c0 {
                    assert(counts@[q] == counts_prev[q]);
                    assert(cnt_ints(counts_prev)[q] == init_counts(g)[q]);
                } else {
                    assert(counts@[q] == (if start_col(g, q) {
                        1usize
                    } else {
                        0usize
                    }));
                }
            }
        }
        c0 = c0 + 1;
    }
    let ghost total_spec = sum_ints(
        sim_counts(
            g,
            start_row(g, n as int),
            Seq::new(g[0].len(), |c: int| start_col(g, c)),
            init_counts(g),
        ),
    );
    proof {
        assert(active@ =~= Seq::new(g[0].len(), |c: int| start_col(g, c)));
        assert(cnt_ints(counts@) =~= init_counts(g));
        lemma_start_row_bound(g, n as int);
        assert(all_nonneg(init_counts(g)));
    }
    while beam_row + 1 < n
        invariant
            bgrid_wf(g),
            g == bview(grid@),
            n == g.len(),
            m == g[0].len(),
            beam_row < n,
            active@.len() == m,
            counts@.len() == m,
            all_nonneg(cnt_ints(counts@)),
            counts_fit(g, beam_row as int, active@, cnt_ints(counts@)),
            sum_ints(sim_counts(g, beam_row as int, active@, cnt_ints(counts@))) == total_spec,
        decreases n - beam_row,
    {
        let mut has_obs = false;
        let mut c: usize = 0;
        while c < m
            invariant
                c <= m,
                beam_row + 1 < n,
                bgrid_wf(g),
                g == bview(grid@),
                n == g.len(),
                m == g[0].len(),
                has_obs <==> exists|q: int| 0 <= q < c && #[trigger] g[beam_row + 1][q] == '^',
            decreases m - c,
        {
            proof {
                assert(grid@[beam_row + 1]@ == g[beam_row + 1]);
            }
            if grid[beam_row + 1][c] == '^' {
                has_obs = true;
            }
            c = c + 1;
        }
        proof {
            assert(row_has_obstacle(g, beam_row + 1) <==> has_obs);
        }
        if has_obs {
            let ghost cnt_old = cnt_ints(counts@);
            let ghost new_spec = step_counts(g, beam_row + 1, active@, cnt_old);
            proof {
                lemma_step_counts_nonneg(g, beam_row + 1, active@, cnt_old);
                lemma_sum_ints_nonneg(new_spec);
                assert(counts_fit(g, beam_row as int, active@, cnt_old));
                assert(counts_fit(
                    g,
                    beam_row + 1,
                    step_active(g, beam_row + 1, active@),
                    new_spec,
                ));
                assert(sum_ints(new_spec) <= usize::MAX);
            }
            let mut new_active: Vec<bool> = Vec::new();
            let mut new_counts: Vec<usize> = Vec::new();
            let mut c2: usize = 0;
            while c2 < m
                invariant
                    c2 <= m,
                    beam_row + 1 < n,
                    bgrid_wf(g),
                    g == bview(grid@),
                    n == g.len(),
                    m == g[0].len(),
                    active@.len() == m,
                    counts@.len() == m,
                    cnt_old == cnt_ints(counts@),
                    all_nonneg(cnt_old),
                    new_spec == step_counts(g, beam_row + 1, active@, cnt_old),
                    all_nonneg(new_spec),
                    sum_ints(new_spec) <= usize::MAX,
                    new_active@.len() == c2 as int,
                    new_counts@.len() == c2 as int,
                    forall|q: int|
                        0 <= q < c2 ==> #[trigger] new_active@[q] == step_active(
                            g,
                            beam_row + 1,
                            active@,
                        )[q],
                    forall|q: int|
                        0 <= q < c2 ==> #[trigger] cnt_ints(new_counts@)[q] == new_spec[q],
                decreases m - c2,
            {
                proof {
                    assert(grid@[beam_row + 1]@ == g[beam_row + 1]);
                    lemma_sum_ints_entry(new_spec, c2 as int);
                    assert(cnt_old[c2 as int] == counts@[c2 as int] as int);
                    if c2 + 1 < m {
                        assert(cnt_old[c2 as int + 1] == counts@[c2 as int + 1] as int);
                    }
                    if c2 >= 1 {
                        assert(cnt_old[c2 as int - 1] == counts@[c2 as int - 1] as int);
                    }
                }
                let obs_here = grid[beam_row + 1][c2] == '^';
                let pass: usize = if active[c2] && obs_here {
                    0
                } else {
                    counts[c2]
                };
                let from_right: usize = if c2 + 1 < m && active[c2 + 1] && grid[beam_row + 1][c2
                    + 1] == '^' {
                    counts[c2 + 1]
                } else {
                    0
                };
                let from_left: usize = if c2 >= 1 && active[c2 - 1] && grid[beam_row + 1][c2 - 1]
                    == '^' {
                    counts[c2 - 1]
                } else {
                    0
                };
                let value = pass + from_right + from_left;
                proof {
                    assert(value as int == new_spec[c2 as int]);
                }
                let ghost nc_prev = new_counts@;
                new_counts.push(value);
                let from_l = c2 >= 1 && active[c2 - 1] && grid[beam_row + 1][c2 - 1] == '^';
                let from_r = c2 + 1 < m && active[c2 + 1] && grid[beam_row + 1][c2 + 1] == '^';
                let stays = active[c2] && !obs_here;
                new_active.push(stays || from_r || from_l);
                proof {
                    assert forall|q: int|
                        0 <= q < c2 + 1 implies #[trigger] cnt_ints(new_counts@)[q]
                        == new_spec[q] by {
                        if q < c2 {
                            assert(new_counts@[q] == nc_prev[q]);
                            assert(cnt_ints(nc_prev)[q] == new_spec[q]);
                        } else {
                            assert(new_counts@[q] == value);
                        }
                    }
                }
                c2 = c2 + 1;
            }
            proof {
                assert(new_active@ =~= step_active(g, beam_row + 1, active@));
                assert(cnt_ints(new_counts@) =~= new_spec);
            }
            active = new_active;
            counts = new_counts;
        }
        beam_row = beam_row + 1;
    }
    // Sum the surviving path counts.
    let mut total: usize = 0;
    let mut c3: usize = 0;
    proof {
        assert(sim_counts(g, beam_row as int, active@, cnt_ints(counts@)) == cnt_ints(counts@));
        lemma_sum_pre_bound(cnt_ints(counts@), 0);
    }
    while c3 < m
        invariant
            c3 <= m,
            counts@.len() == m,
            all_nonneg(cnt_ints(counts@)),
            sum_ints(cnt_ints(counts@)) == total_spec,
            total_spec <= usize::MAX,
            total == sum_ints_pre(cnt_ints(counts@), c3 as int),
            total <= total_spec,
        decreases m - c3,
    {
        proof {
            lemma_sum_pre_bound(cnt_ints(counts@), c3 + 1);
            assert(cnt_ints(counts@)[c3 as int] == counts@[c3 as int] as int);
        }
        total = total + counts[c3];
        c3 = c3 + 1;
    }
    proof {
        lemma_sum_pre_full(cnt_ints(counts@), m as int);
        assert(cnt_ints(counts@).take(m as int) =~= cnt_ints(counts@));
    }
    total
}

} // verus!
