//! Spatial clustering and minimum-spanning-tree engine over 3-dimensional
//! integer points: squared-Euclidean edge catalog with deterministic
//! tie-break, a union-find merge structure, bounded single-linkage
//! clustering, and the final MST bridging edge.
use vstd::prelude::*;

verus! {

/// Coordinates are bounded so that a squared distance
/// `dx*dx + dy*dy + dz*dz` always fits in `i64`:
/// each difference is at most 10^9 in magnitude, so the sum of the three
/// squares is at most 3 * 10^18 < i64::MAX.
pub const COORD_BOUND: i64 = 500_000_000;

#[derive(Debug, PartialEq, Eq, Hash, Clone, Copy, Structural)]
pub struct Pos {
    pub x: i64,
    pub y: i64,
    pub z: i64,
}

/// Whether a point's coordinates are within the documented width bound.
pub open spec fn pos_in_bounds(p: Pos) -> bool {
    &&& -COORD_BOUND <= p.x <= COORD_BOUND
    &&& -COORD_BOUND <= p.y <= COORD_BOUND
    &&& -COORD_BOUND <= p.z <= COORD_BOUND
}

/// Squared Euclidean distance, in unbounded integer arithmetic.
pub open spec fn sq_dist(a: Pos, b: Pos) -> int {
    (a.x - b.x) * (a.x - b.x) + (a.y - b.y) * (a.y - b.y) + (a.z - b.z) * (a.z - b.z)
}

proof fn lemma_square_bound(d: int)
    requires
        -1_000_000_000 <= d <= 1_000_000_000,
    ensures
        0 <= d * d <= 1_000_000_000_000_000_000,
{
    assert(0 <= d * d <= 1_000_000_000_000_000_000) by (nonlinear_arith)
        requires
            -1_000_000_000 <= d <= 1_000_000_000,
    ;
}

impl Pos {
    pub fn new(x: i64, y: i64, z: i64) -> (r: Self)
        ensures
            r == (Pos { x, y, z }),
    {
        Self { x, y, z }
    }

    /// Squared Euclidean distance to `p`; exact, no overflow within the
    /// coordinate bound.
    pub fn dist(&self, p: &Pos) -> (r: i64)
        requires
            pos_in_bounds(*self),
            pos_in_bounds(*p),
        ensures
            r == sq_dist(*self, *p),
            r >= 0,
    {
        let dx = self.x - p.x;
        let dy = self.y - p.y;
        let dz = self.z - p.z;
        proof {
            lemma_square_bound(dx as int);
            lemma_square_bound(dy as int);
            lemma_square_bound(dz as int);
        }
        dx * dx + dy * dy + dz * dz
    }
}

// ---------------------------------------------------------------------------
// Mathematical model of the disjoint-set forest.
//
// A state is a parent sequence `p` (a forest pointing towards roots) and a
// rank sequence `r`. Ranks strictly increase along parent edges, which is
// what guarantees that every parent chain reaches a root; `root_of` follows
// the chain with `p.len()` steps of fuel, which is always enough.
// ---------------------------------------------------------------------------

/// Every parent pointer stays inside the forest.
pub open spec fn valid_parents(p: Seq<usize>) -> bool {
    forall|i: int| 0 <= i < p.len() ==> #[trigger] p[i] < p.len()
}

/// Ranks strictly increase along parent edges (so chains cannot cycle).
pub open spec fn ranks_increase(p: Seq<usize>, r: Seq<usize>) -> bool {
    &&& r.len() == p.len()
    &&& forall|i: int| 0 <= i < p.len() && #[trigger] p[i] != i ==> r[i] < r[p[i] as int]
}

/// Follows parent pointers from `x` for at most `fuel` steps.
pub open spec fn root_via(p: Seq<usize>, x: int, fuel: nat) -> int
    decreases fuel,
{
    if fuel == 0 || !(0 <= x < p.len()) || p[x] == x {
        x
    } else {
        root_via(p, p[x] as int, (fuel - 1) as nat)
    }
}

pub open spec fn is_root(p: Seq<usize>, x: int) -> bool {
    0 <= x < p.len() && p[x] == x
}

/// The canonical representative of `x`'s component.
pub open spec fn root_of(p: Seq<usize>, x: int) -> int {
    root_via(p, x, p.len())
}

/// Whether `a` and `b` are currently in the same component.
pub open spec fn same_set(p: Seq<usize>, a: int, b: int) -> bool {
    root_of(p, a) == root_of(p, b)
}

/// The set of current roots; its cardinality is the component count.
pub open spec fn roots_set(p: Seq<usize>) -> Set<int> {
    Set::new(|i: int| is_root(p, i))
}

/// The nodes whose rank is at least `x`'s rank: a measure that shrinks on
/// every step towards the root.
spec fn above(p: Seq<usize>, r: Seq<usize>, x: int) -> Set<int> {
    Set::new(|i: int| 0 <= i < p.len() && r[x] <= r[i])
}

proof fn lemma_above_finite(p: Seq<usize>, r: Seq<usize>, x: int)
    ensures
        above(p, r, x).finite(),
        above(p, r, x).len() <= p.len(),
{
    let rng = vstd::set_lib::set_int_range(0, p.len() as int);
    vstd::set_lib::lemma_int_range(0, p.len() as int);
    assert(above(p, r, x).subset_of(rng));
    vstd::set_lib::lemma_len_subset(above(p, r, x), rng);
}

proof fn lemma_above_step(p: Seq<usize>, r: Seq<usize>, x: int)
    requires
        valid_parents(p),
        ranks_increase(p, r),
        0 <= x < p.len(),
        p[x] != x,
    ensures
        above(p, r, p[x] as int).len() < above(p, r, x).len(),
{
    lemma_above_finite(p, r, x);
    lemma_above_finite(p, r, p[x] as int);
    assert(above(p, r, x).contains(x));
    assert(above(p, r, p[x] as int).subset_of(above(p, r, x).remove(x)));
    vstd::set_lib::lemma_len_subset(above(p, r, p[x] as int), above(p, r, x).remove(x));
    assert(above(p, r, x).remove(x).len() == above(p, r, x).len() - 1);
}

/// With fuel at least `|above(x)|`, the chain from `x` reaches a root.
proof fn lemma_fuel_reaches_root(p: Seq<usize>, r: Seq<usize>, x: int, fuel: nat)
    requires
        valid_parents(p),
        ranks_increase(p, r),
        0 <= x < p.len(),
        above(p, r, x).len() <= fuel,
    ensures
        is_root(p, root_via(p, x, fuel)),
    decreases fuel,
{
    if p[x] == x {
    } else {
        lemma_above_step(p, r, x);
        assert(above(p, r, x).contains(x));
        lemma_above_finite(p, r, x);
        lemma_fuel_reaches_root(p, r, p[x] as int, (fuel - 1) as nat);
    }
}

/// Once a root is reached, extra fuel does not change the answer.
proof fn lemma_fuel_mono(p: Seq<usize>, x: int, f: nat, g: nat)
    requires
        is_root(p, root_via(p, x, f)),
        f <= g,
    ensures
        root_via(p, x, g) == root_via(p, x, f),
    decreases f,
{
    if f == 0 {
        assert(root_via(p, x, f) == x);
        assert(is_root(p, x));
    } else {
        if !(0 <= x < p.len()) || p[x] == x {
        } else {
            lemma_fuel_mono(p, p[x] as int, (f - 1) as nat, (g - 1) as nat);
        }
    }
}

/// `root_of` lands on a root.
pub proof fn lemma_rooted(p: Seq<usize>, r: Seq<usize>, x: int)
    requires
        valid_parents(p),
        ranks_increase(p, r),
        0 <= x < p.len(),
    ensures
        is_root(p, root_of(p, x)),
{
    lemma_above_finite(p, r, x);
    lemma_fuel_reaches_root(p, r, x, p.len());
}

/// One step along the chain keeps the root.
pub proof fn lemma_root_step(p: Seq<usize>, r: Seq<usize>, x: int)
    requires
        valid_parents(p),
        ranks_increase(p, r),
        0 <= x < p.len(),
        p[x] != x,
    ensures
        root_of(p, p[x] as int) == root_of(p, x),
{
    let n = p.len();
    assert(root_via(p, x, n) == root_via(p, p[x] as int, (n - 1) as nat));
    lemma_above_step(p, r, x);
    lemma_above_finite(p, r, x);
    lemma_fuel_reaches_root(p, r, p[x] as int, (n - 1) as nat);
    lemma_fuel_mono(p, p[x] as int, (n - 1) as nat, n);
}

/// A root is its own representative.
pub proof fn lemma_root_of_root(p: Seq<usize>, x: int)
    requires
        is_root(p, x),
    ensures
        root_of(p, x) == x,
{
}

/// Ranks never decrease towards the root.
proof fn lemma_root_rank(p: Seq<usize>, r: Seq<usize>, x: int)
    requires
        valid_parents(p),
        ranks_increase(p, r),
        0 <= x < p.len(),
    ensures
        r[root_of(p, x)] >= r[x],
    decreases above(p, r, x).len(),
{
    if p[x] == x {
        lemma_root_of_root(p, x);
    } else {
        lemma_above_step(p, r, x);
        lemma_root_step(p, r, x);
        lemma_root_rank(p, r, p[x] as int);
    }
}

/// Pointing `z` directly at its root keeps every representative unchanged.
proof fn lemma_compress_one(p: Seq<usize>, r: Seq<usize>, z: int, y: int)
    requires
        valid_parents(p),
        ranks_increase(p, r),
        0 <= z < p.len(),
        0 <= y < p.len(),
        valid_parents(p.update(z, root_of(p, z) as usize)),
        ranks_increase(p.update(z, root_of(p, z) as usize), r),
    ensures
        root_of(p.update(z, root_of(p, z) as usize), y) == root_of(p, y),
    decreases above(p, r, y).len(),
{
    let rt = root_of(p, z);
    let p2 = p.update(z, rt as usize);
    lemma_rooted(p, r, z);
    if p[y] == y {
        if y == z {
            lemma_root_of_root(p, z);
            assert(p2[y] == y);
            lemma_root_of_root(p2, y);
        } else {
            assert(is_root(p2, y));
            lemma_root_of_root(p2, y);
            lemma_root_of_root(p, y);
        }
    } else if y == z {
        assert(rt != z);
        assert(p2[z] == rt);
        assert(is_root(p2, rt));
        lemma_root_step(p2, r, z);
        lemma_root_of_root(p2, rt);
    } else {
        assert(p2[y] == p[y]);
        lemma_root_step(p, r, y);
        lemma_root_step(p2, r, y);
        lemma_above_step(p, r, y);
        lemma_compress_one(p, r, z, p[y] as int);
    }
}

/// Path compression: update `z` to point at its root. Well-formedness is
/// preserved, and so are all representatives and the set of roots.
proof fn lemma_compress(p: Seq<usize>, r: Seq<usize>, z: int)
    requires
        valid_parents(p),
        ranks_increase(p, r),
        0 <= z < p.len(),
    ensures
        valid_parents(p.update(z, root_of(p, z) as usize)),
        ranks_increase(p.update(z, root_of(p, z) as usize), r),
        forall|y: int|
            0 <= y < p.len() ==> root_of(p.update(z, root_of(p, z) as usize), y) == root_of(
                p,
                y,
            ),
        roots_set(p.update(z, root_of(p, z) as usize)) == roots_set(p),
{
    let rt = root_of(p, z);
    let p2 = p.update(z, rt as usize);
    lemma_rooted(p, r, z);
    assert(valid_parents(p2));
    if p[z] != z {
        lemma_root_step(p, r, z);
        lemma_root_rank(p, r, p[z] as int);
        assert(r[rt] >= r[p[z] as int] > r[z]);
    } else {
        lemma_root_of_root(p, z);
    }
    assert(ranks_increase(p2, r));
    assert forall|y: int| 0 <= y < p.len() implies root_of(p2, y) == root_of(p, y) by {
        lemma_compress_one(p, r, z, y);
    }
    assert(roots_set(p2) =~= roots_set(p));
}

/// Attaching root `ry` under root `rx` remaps exactly `ry`'s component.
proof fn lemma_union_one(p: Seq<usize>, r2: Seq<usize>, rx: int, ry: int, y: int)
    requires
        valid_parents(p),
        ranks_increase(p, r2),
        is_root(p, rx),
        is_root(p, ry),
        rx != ry,
        0 <= y < p.len(),
        valid_parents(p.update(ry, rx as usize)),
        ranks_increase(p.update(ry, rx as usize), r2),
    ensures
        root_of(p.update(ry, rx as usize), y) == (if root_of(p, y) == ry {
            rx
        } else {
            root_of(p, y)
        }),
    decreases above(p, r2, y).len(),
{
    let p2 = p.update(ry, rx as usize);
    if p[y] == y {
        lemma_root_of_root(p, y);
        if y == ry {
            assert(p2[ry] == rx);
            assert(is_root(p2, rx));
            lemma_root_step(p2, r2, ry);
            lemma_root_of_root(p2, rx);
        } else {
            assert(is_root(p2, y));
            lemma_root_of_root(p2, y);
        }
    } else {
        assert(y != ry);
        assert(p2[y] == p[y]);
        lemma_root_step(p, r2, y);
        lemma_root_step(p2, r2, y);
        lemma_above_step(p, r2, y);
        lemma_union_one(p, r2, rx, ry, p[y] as int);
    }
}

proof fn lemma_union_update(p: Seq<usize>, r: Seq<usize>, r2: Seq<usize>, rx: int, ry: int)
    requires
        valid_parents(p),
        ranks_increase(p, r),
        is_root(p, rx),
        is_root(p, ry),
        rx != ry,
        r2.len() == r.len(),
        forall|i: int| 0 <= i < r.len() ==> r[i] <= #[trigger] r2[i],
        forall|i: int| 0 <= i < r.len() && i != rx ==> r[i] == #[trigger] r2[i],
        r2[ry] < r2[rx],
    ensures
        valid_parents(p.update(ry, rx as usize)),
        ranks_increase(p.update(ry, rx as usize), r2),
        forall|y: int|
            0 <= y < p.len() ==> root_of(p.update(ry, rx as usize), y) == (if root_of(p, y) == ry {
                rx
            } else {
                root_of(p, y)
            }),
        roots_set(p.update(ry, rx as usize)) == roots_set(p).remove(ry),
{
    let p2 = p.update(ry, rx as usize);
    assert(valid_parents(p2));
    assert(ranks_increase(p, r2));
    assert(ranks_increase(p2, r2));
    assert forall|y: int| 0 <= y < p.len() implies root_of(p2, y) == (if root_of(p, y) == ry {
        rx
    } else {
        root_of(p, y)
    }) by {
        lemma_union_one(p, r2, rx, ry, y);
    }
    assert(roots_set(p2) =~= roots_set(p).remove(ry));
}

/// Sum of a sequence of ranks; at most `n - components` at all times, which
/// bounds every individual rank.
pub open spec fn seq_sum(s: Seq<usize>) -> int
    decreases s.len(),
{
    if s.len() == 0 {
        0
    } else {
        seq_sum(s.drop_last()) + s.last()
    }
}

proof fn lemma_seq_sum_nonneg(s: Seq<usize>)
    ensures
        seq_sum(s) >= 0,
    decreases s.len(),
{
    if s.len() > 0 {
        lemma_seq_sum_nonneg(s.drop_last());
    }
}

proof fn lemma_elem_le_sum(s: Seq<usize>, i: int)
    requires
        0 <= i < s.len(),
    ensures
        s[i] <= seq_sum(s),
    decreases s.len(),
{
    lemma_seq_sum_nonneg(s.drop_last());
    if i < s.len() - 1 {
        lemma_elem_le_sum(s.drop_last(), i);
    }
}

proof fn lemma_sum_update(s: Seq<usize>, i: int, v: usize)
    requires
        0 <= i < s.len(),
    ensures
        seq_sum(s.update(i, v)) == seq_sum(s) - s[i] + v,
    decreases s.len(),
{
    if i == s.len() - 1 {
        assert(s.update(i, v).drop_last() =~= s.drop_last());
    } else {
        assert(s.update(i, v).drop_last() =~= s.drop_last().update(i, v));
        lemma_sum_update(s.drop_last(), i, v);
    }
}

proof fn lemma_roots_set_finite(p: Seq<usize>)
    ensures
        roots_set(p).finite(),
        roots_set(p).len() <= p.len(),
{
    let rng = vstd::set_lib::set_int_range(0, p.len() as int);
    vstd::set_lib::lemma_int_range(0, p.len() as int);
    assert(roots_set(p).subset_of(rng));
    vstd::set_lib::lemma_len_subset(roots_set(p), rng);
}

// ---------------------------------------------------------------------------
// Index-based union-find with path compression and union by rank.
// ---------------------------------------------------------------------------

/// Disjoint-set structure over the dense indices `0 .. n`. `find` compresses
/// paths; `union` attaches the lower-ranked root under the higher-ranked one
/// and reports whether two components actually merged.
pub struct UnionFind {
    parent: Vec<usize>,
    rank: Vec<usize>,
    num_components: usize,
}

impl UnionFind {
    /// The parent forest, the abstraction that `root_of` and `same_set`
    /// contracts are stated over.
    pub closed spec fn parents(&self) -> Seq<usize> {
        self.parent@
    }

    pub open spec fn n(&self) -> nat {
        self.parents().len()
    }

    pub open spec fn components(&self) -> int {
        roots_set(self.parents()).len() as int
    }

    /// Internal well-formedness: a forest with ranks increasing towards the
    /// roots, the component counter equal to the number of roots, and the
    /// total rank bounded by the number of merges performed so far.
    pub closed spec fn wf(&self) -> bool {
        &&& valid_parents(self.parent@)
        &&& ranks_increase(self.parent@, self.rank@)
        &&& self.num_components == roots_set(self.parent@).len()
        &&& seq_sum(self.rank@) + roots_set(self.parent@).len() <= self.parent@.len()
    }

    /// One disjoint singleton component per index.
    pub fn new(n: usize) -> (uf: UnionFind)
        ensures
            uf.wf(),
            uf.n() == n,
            forall|x: int| 0 <= x < n ==> root_of(uf.parents(), x) == x,
            uf.components() == n,
    {
        let mut parent: Vec<usize> = Vec::new();
        let mut rank: Vec<usize> = Vec::new();
        let mut i: usize = 0;
        while i < n
            invariant
                i <= n,
                parent@.len() == i,
                rank@.len() == i,
                forall|k: int| 0 <= k < i ==> parent@[k] == k,
                forall|k: int| 0 <= k < i ==> rank@[k] == 0,
            decreases n - i,
        {
            parent.push(i);
            rank.push(0);
            i = i + 1;
        }
        let uf = UnionFind { parent, rank, num_components: n };
        proof {
            let p = uf.parent@;
            let rng = vstd::set_lib::set_int_range(0, n as int);
            vstd::set_lib::lemma_int_range(0, n as int);
            assert(roots_set(p) =~= rng);
            lemma_sum_zero(uf.rank@);
            assert forall|x: int| 0 <= x < n implies root_of(p, x) == x by {
                lemma_root_of_root(p, x);
            }
        }
        uf
    }

    /// Recursive find with path compression. The ghost `seen` set carries
    /// the strictly-rank-increasing history, which bounds the recursion.
    fn find_rec(&mut self, x: usize, Ghost(seen): Ghost<Set<int>>) -> (r: usize)
        requires
            old(self).wf(),
            x < old(self).n(),
            seen.finite(),
            seen.subset_of(vstd::set_lib::set_int_range(0, old(self).n() as int)),
            forall|s: int| seen.contains(s) ==> old(self).rank_at(s) < old(self).rank_at(x as int),
        ensures
            final(self).wf(),
            final(self).n() == old(self).n(),
            r == root_of(old(self).parents(), x as int),
            is_root(final(self).parents(), r as int),
            forall|a: int|
                0 <= a < old(self).n() ==> root_of(final(self).parents(), a) == root_of(
                    old(self).parents(),
                    a,
                ),
            final(self).rank_seq() == old(self).rank_seq(),
            roots_set(final(self).parents()) == roots_set(old(self).parents()),
            final(self).components() == old(self).components(),
        decreases old(self).n() - seen.len(),
    {
        proof {
            assert(!seen.contains(x as int));
            assert(seen.insert(x as int).subset_of(
                vstd::set_lib::set_int_range(0, old(self).n() as int),
            ));
            vstd::set_lib::lemma_int_range(0, old(self).n() as int);
            vstd::set_lib::lemma_len_subset(
                seen.insert(x as int),
                vstd::set_lib::set_int_range(0, old(self).n() as int),
            );
        }
        let px = self.parent[x];
        if px == x {
            proof {
                lemma_root_of_root(self.parent@, x as int);
            }
            x
        } else {
            let r = self.find_rec(px, Ghost(seen.insert(x as int)));
            proof {
                lemma_root_step(old(self).parent@, old(self).rank@, x as int);
            }
            let ghost p2 = self.parent@;
            self.parent.set(x, r);
            proof {
                assert(root_of(p2, x as int) == root_of(old(self).parent@, x as int));
                assert(r == root_of(p2, x as int));
                lemma_compress(p2, self.rank@, x as int);
                assert(self.parent@ =~= p2.update(x as int, root_of(p2, x as int) as usize));
                lemma_rooted(self.parent@, self.rank@, x as int);
                assert(root_of(self.parent@, x as int) == r as int);
                assert(is_root(self.parent@, r as int)) by {
                    lemma_rooted(p2, self.rank@, x as int);
                    if self.parent@[r as int] != r as int {
                        assert(root_of(self.parent@, r as int) == root_of(p2, r as int));
                        lemma_root_of_root(p2, r as int);
                    }
                }
            }
            r
        }
    }

    spec fn rank_at(&self, i: int) -> usize {
        self.rank@[i]
    }

    pub closed spec fn rank_seq(&self) -> Seq<usize> {
        self.rank@
    }

    /// The canonical representative of `x`'s component, compressing the
    /// path. Representatives of every element are unchanged.
    pub fn find(&mut self, x: usize) -> (r: usize)
        requires
            old(self).wf(),
            x < old(self).n(),
        ensures
            final(self).wf(),
            final(self).n() == old(self).n(),
            r == root_of(old(self).parents(), x as int),
            is_root(final(self).parents(), r as int),
            forall|a: int|
                0 <= a < old(self).n() ==> root_of(final(self).parents(), a) == root_of(
                    old(self).parents(),
                    a,
                ),
            final(self).rank_seq() == old(self).rank_seq(),
            roots_set(final(self).parents()) == roots_set(old(self).parents()),
            final(self).components() == old(self).components(),
    {
        self.find_rec(x, Ghost(Set::empty()))
    }

    /// Merges the components of `x` and `y`; returns whether a merge
    /// actually happened (false when they were already in one component).
    /// The resulting partition is the old one with `x`'s and `y`'s
    /// components joined, and the component count drops by one exactly on a
    /// structural merge.
    pub fn union(&mut self, x: usize, y: usize) -> (merged: bool)
        requires
            old(self).wf(),
            x < old(self).n(),
            y < old(self).n(),
        ensures
            final(self).wf(),
            final(self).n() == old(self).n(),
            merged == !same_set(old(self).parents(), x as int, y as int),
            forall|a: int, b: int|
                0 <= a < old(self).n() && 0 <= b < old(self).n() ==> (#[trigger] same_set(
                    final(self).parents(),
                    a,
                    b,
                ) <==> (same_set(old(self).parents(), a, b) || (same_set(
                    old(self).parents(),
                    a,
                    x as int,
                ) && same_set(old(self).parents(), y as int, b)) || (same_set(
                    old(self).parents(),
                    a,
                    y as int,
                ) && same_set(old(self).parents(), x as int, b)))),
            final(self).components() == old(self).components() - (if merged {
                1int
            } else {
                0int
            }),
    {
        let ghost p0 = self.parent@;
        let ghost n = self.n();
        let root_x = self.find(x);
        let ghost p1 = self.parent@;
        let root_y = self.find(y);
        if root_x == root_y {
            proof {
                assert forall|a: int, b: int|
                    0 <= a < n && 0 <= b < n implies (#[trigger] same_set(self.parent@, a, b)
                    <==> (same_set(p0, a, b) || (same_set(p0, a, x as int) && same_set(
                    p0,
                    y as int,
                    b,
                )) || (same_set(p0, a, y as int) && same_set(p0, x as int, b)))) by {
                    assert(root_of(self.parent@, a) == root_of(p0, a));
                    assert(root_of(self.parent@, b) == root_of(p0, b));
                }
            }
            return false;
        }
        let ghost p2 = self.parent@;
        let ghost r2_before = self.rank@;
        proof {
            assert(root_of(p2, x as int) == root_of(p0, x as int));
            assert(is_root(p1, root_x as int));
            assert(roots_set(p1).contains(root_x as int));
            assert(roots_set(p2).contains(root_x as int));
            assert(is_root(p2, root_x as int));
            assert(is_root(p2, root_y as int));
            lemma_root_of_root(p2, root_x as int);
            lemma_root_of_root(p2, root_y as int);
            lemma_roots_set_finite(p2);
            assert(roots_set(p2).contains(root_x as int));
            assert(roots_set(p2).contains(root_y as int));
            assert(roots_set(p2).remove(root_x as int).contains(root_y as int));
            assert(roots_set(p2).len() >= 2);
        }
        let nn = self.parent.len();
        let rkx = self.rank[root_x];
        let rky = self.rank[root_y];
        let ghost winner: int;
        let ghost loser: int;
        if rkx < rky {
            self.parent.set(root_x, root_y);
            proof {
                winner = root_y as int;
                loser = root_x as int;
                lemma_union_update(p2, r2_before, r2_before, root_y as int, root_x as int);
            }
        } else if rkx > rky {
            self.parent.set(root_y, root_x);
            proof {
                winner = root_x as int;
                loser = root_y as int;
                lemma_union_update(p2, r2_before, r2_before, root_x as int, root_y as int);
            }
        } else {
            self.parent.set(root_y, root_x);
            proof {
                lemma_elem_le_sum(r2_before, root_x as int);
                lemma_seq_sum_nonneg(r2_before);
            }
            proof {
                assert(rkx <= seq_sum(r2_before));
                assert(seq_sum(r2_before) + roots_set(p2).len() <= nn);
            }
            let new_rank = rkx + 1;
            self.rank.set(root_x, new_rank);
            proof {
                winner = root_x as int;
                loser = root_y as int;
                lemma_sum_update(r2_before, root_x as int, new_rank);
                lemma_union_update(p2, r2_before, self.rank@, root_x as int, root_y as int);
            }
        }
        self.num_components = self.num_components - 1;
        proof {
            let pf = self.parent@;
            assert(roots_set(pf) == roots_set(p2).remove(loser));
            assert(roots_set(pf).len() == roots_set(p2).len() - 1);
            assert forall|a: int, b: int|
                0 <= a < n && 0 <= b < n implies (#[trigger] same_set(pf, a, b) <==> (same_set(
                p0,
                a,
                b,
            ) || (same_set(p0, a, x as int) && same_set(p0, y as int, b)) || (same_set(
                p0,
                a,
                y as int,
            ) && same_set(p0, x as int, b)))) by {
                assert(root_of(p2, a) == root_of(p0, a));
                assert(root_of(p2, b) == root_of(p0, b));
                assert(root_of(pf, a) == (if root_of(p2, a) == loser {
                    winner
                } else {
                    root_of(p2, a)
                }));
                assert(root_of(pf, b) == (if root_of(p2, b) == loser {
                    winner
                } else {
                    root_of(p2, b)
                }));
            }
        }
        true
    }

    /// How many distinct components remain.
    pub fn num_components(&self) -> (r: usize)
        requires
            self.wf(),
        ensures
            r == self.components(),
    {
        self.num_components
    }
}

// ---------------------------------------------------------------------------
// The partition induced by a sequence of merge edges, independently of any
// union-find state: `joined` is the equivalence closure of the edges applied
// so far. `union`'s contract steps this relation by exactly one edge, so a
// loop that feeds edges into a `UnionFind` tracks `joined` precisely.
// ---------------------------------------------------------------------------

/// `a` and `b` are connected after applying `pairs` in order.
pub open spec fn joined(pairs: Seq<(usize, usize)>, a: int, b: int) -> bool
    decreases pairs.len(),
{
    if pairs.len() == 0 {
        a == b
    } else {
        let e = pairs.last();
        let rest = pairs.drop_last();
        joined(rest, a, b) || (joined(rest, a, e.0 as int) && joined(rest, e.1 as int, b)) || (
        joined(rest, a, e.1 as int) && joined(rest, e.0 as int, b))
    }
}

pub proof fn lemma_joined_refl(pairs: Seq<(usize, usize)>, a: int)
    ensures
        joined(pairs, a, a),
    decreases pairs.len(),
{
    if pairs.len() > 0 {
        lemma_joined_refl(pairs.drop_last(), a);
    }
}

pub proof fn lemma_joined_symm(pairs: Seq<(usize, usize)>, a: int, b: int)
    requires
        joined(pairs, a, b),
    ensures
        joined(pairs, b, a),
    decreases pairs.len(),
{
    if pairs.len() > 0 {
        let e = pairs.last();
        let rest = pairs.drop_last();
        if joined(rest, a, b) {
            lemma_joined_symm(rest, a, b);
        } else if joined(rest, a, e.0 as int) && joined(rest, e.1 as int, b) {
            lemma_joined_symm(rest, a, e.0 as int);
            lemma_joined_symm(rest, e.1 as int, b);
        } else {
            lemma_joined_symm(rest, a, e.1 as int);
            lemma_joined_symm(rest, e.0 as int, b);
        }
    }
}

pub proof fn lemma_joined_trans(pairs: Seq<(usize, usize)>, a: int, b: int, c: int)
    requires
        joined(pairs, a, b),
        joined(pairs, b, c),
    ensures
        joined(pairs, a, c),
    decreases pairs.len(),
{
    if pairs.len() > 0 {
        let e = pairs.last();
        let rest = pairs.drop_last();
        let u = e.0 as int;
        let v = e.1 as int;
        // Reduce each side to statements over `rest`, then chain them.
        if joined(rest, a, b) {
            if joined(rest, b, c) {
                lemma_joined_trans(rest, a, b, c);
            } else if joined(rest, b, u) && joined(rest, v, c) {
                lemma_joined_trans(rest, a, b, u);
            } else {
                lemma_joined_trans(rest, a, b, v);
            }
        } else if joined(rest, a, u) && joined(rest, v, b) {
            if joined(rest, b, c) {
                lemma_joined_trans(rest, v, b, c);
            } else if joined(rest, b, u) && joined(rest, v, c) {
                // a-u and v-c already give the second disjunct.
            } else {
                // b-v and u-c: a-u-c stays within `rest`.
                lemma_joined_trans(rest, a, u, c);
            }
        } else {
            if joined(rest, b, c) {
                lemma_joined_trans(rest, u, b, c);
            } else if joined(rest, b, u) && joined(rest, v, c) {
                // b-u and v-c: a-v-c stays within `rest`.
                lemma_joined_trans(rest, a, v, c);
            } else {
                // a-v and u-c already give the third disjunct.
            }
        }
    }
}

proof fn lemma_joined_push(pairs: Seq<(usize, usize)>, e: (usize, usize), a: int, b: int)
    requires
        joined(pairs, a, b),
    ensures
        joined(pairs.push(e), a, b),
{
    assert(pairs.push(e).drop_last() =~= pairs);
}

/// Coarsening law: applying more edges never splits a cluster. The
/// partition after `k2` edges merges whole clusters of the partition after
/// `k <= k2` edges.
pub proof fn lemma_cluster_coarsening(pairs: Seq<(usize, usize)>, k: int, k2: int)
    requires
        0 <= k <= k2 <= pairs.len(),
    ensures
        forall|a: int, b: int|
            joined(#[trigger] pairs.take(k), a, b) ==> joined(#[trigger] pairs.take(k2), a, b),
    decreases k2 - k,
{
    if k < k2 {
        lemma_cluster_coarsening(pairs, k, k2 - 1);
        assert(pairs.take(k2) =~= pairs.take(k2 - 1).push(pairs[k2 - 1]));
        assert forall|a: int, b: int|
            joined(#[trigger] pairs.take(k), a, b) implies joined(
            #[trigger] pairs.take(k2),
            a,
            b,
        ) by {
            if joined(pairs.take(k), a, b) {
                lemma_joined_push(pairs.take(k2 - 1), pairs[k2 - 1], a, b);
            }
        }
    }
}

/// Idempotence law: an edge between points that are already connected
/// changes nothing about the partition, so processing a duplicate edge (or
/// merging the same two clusters twice) leaves every cluster as it was.
pub proof fn lemma_duplicate_edge(pairs: Seq<(usize, usize)>, x: usize, y: usize)
    requires
        joined(pairs, x as int, y as int),
    ensures
        forall|a: int, b: int|
            joined(#[trigger] pairs.push((x, y)), a, b) == joined(pairs, a, b),
{
    assert forall|a: int, b: int|
        joined(#[trigger] pairs.push((x, y)), a, b) == joined(pairs, a, b) by {
        assert(pairs.push((x, y)).drop_last() =~= pairs);
        if joined(pairs.push((x, y)), a, b) {
            if joined(pairs, a, b) {
            } else if joined(pairs, a, x as int) && joined(pairs, y as int, b) {
                lemma_joined_trans(pairs, a, x as int, y as int);
                lemma_joined_trans(pairs, a, y as int, b);
            } else {
                lemma_joined_symm(pairs, x as int, y as int);
                lemma_joined_trans(pairs, a, y as int, x as int);
                lemma_joined_trans(pairs, a, x as int, b);
            }
        }
    }
}

/// All of `0 .. n` is one single component.
pub open spec fn all_joined(n: nat, pairs: Seq<(usize, usize)>) -> bool {
    forall|a: int, b: int| 0 <= a < n && 0 <= b < n ==> joined(pairs, a, b)
}

// ---------------------------------------------------------------------------
// The edge catalog: all unordered index pairs, sorted by squared distance
// with the deterministic tie-break "earlier in the i < j enumeration wins",
// that is, by (distance, i, j) lexicographically.
// ---------------------------------------------------------------------------

/// `es` holds every unordered pair `(i, j)` with `i < j < n`, exactly once.
pub open spec fn pair_catalog(n: nat, es: Seq<(usize, usize)>) -> bool {
    &&& forall|m: int| 0 <= m < es.len() ==> (#[trigger] es[m]).0 < es[m].1 < n
    &&& forall|i: usize, j: usize| i < j < n ==> es.contains((i, j))
    &&& es.no_duplicates()
}

/// The total order on candidate edges: squared distance first, then the
/// enumeration order of the pair itself.
pub open spec fn edge_le(points: Seq<Pos>, a: (usize, usize), b: (usize, usize)) -> bool {
    let da = sq_dist(points[a.0 as int], points[a.1 as int]);
    let db = sq_dist(points[b.0 as int], points[b.1 as int]);
    ||| da < db
    ||| (da == db && (a.0 < b.0 || (a.0 == b.0 && a.1 <= b.1)))
}

/// The distance-sorted candidate edge catalog of `points`; unique for a
/// given point sequence.
pub open spec fn sorted_catalog(points: Seq<Pos>, es: Seq<(usize, usize)>) -> bool {
    &&& pair_catalog(points.len(), es)
    &&& vstd::relations::sorted_by(es, |a: (usize, usize), b: (usize, usize)| edge_le(points, a, b))
}

/// Strict lexicographic order on index pairs: the order in which the
/// `i < j` enumeration discovers them.
pub open spec fn lex_lt(a: (usize, usize), b: (usize, usize)) -> bool {
    a.0 < b.0 || (a.0 == b.0 && a.1 < b.1)
}

pub open spec fn lex_sorted(es: Seq<(usize, usize)>) -> bool {
    forall|m1: int, m2: int| 0 <= m1 < m2 < es.len() ==> lex_lt(#[trigger] es[m1], #[trigger] es[m2])
}

/// Enumerates every unordered index pair `(i, j)`, `i < j < n`, in
/// discovery order.
fn build_pair_catalog(n: usize) -> (es: Vec<(usize, usize)>)
    ensures
        pair_catalog(n as nat, es@),
        lex_sorted(es@),
        2 * es@.len() == n * (n as int - 1),
{
    let mut es: Vec<(usize, usize)> = Vec::new();
    let mut i: usize = 0;
    while i < n
        invariant
            i <= n,
            forall|m: int| 0 <= m < es@.len() ==> (#[trigger] es@[m]).0 < es@[m].1 < n,
            forall|m: int| 0 <= m < es@.len() ==> (#[trigger] es@[m]).0 < i,
            forall|a: usize, b: usize| a < b < n && a < i ==> es@.contains((a, b)),
            lex_sorted(es@),
            2 * es@.len() == i * (2 * (n as int) - i - 1),
        decreases n - i,
    {
        let mut j: usize = i + 1;
        proof {
            assert(2 * es@.len() == i * (2 * (n as int) - i - 1) + 2 * ((i + 1) - i - 1));
        }
        while j < n
            invariant
                i < j <= n || (j == i + 1 && i <= n),
                i < n,
                forall|m: int| 0 <= m < es@.len() ==> (#[trigger] es@[m]).0 < es@[m].1 < n,
                forall|m: int|
                    0 <= m < es@.len() ==> ((#[trigger] es@[m]).0 < i || (es@[m].0 == i && es@[m].1
                        < j)),
                forall|a: usize, b: usize| a < b < n && a < i ==> es@.contains((a, b)),
                forall|b: usize| i < b < j ==> es@.contains((i, b)),
                lex_sorted(es@),
                2 * es@.len() == i * (2 * (n as int) - i - 1) + 2 * (j - i - 1),
            decreases n - j,
        {
            let ghost es0 = es@;
            es.push((i, j));
            j = j + 1;
            proof {
                assert(es@ == es0.push((i, (j - 1) as usize)));
                assert forall|a: usize, b: usize| a < b < n && a < i implies es@.contains(
                    (a, b),
                ) by {
                    assert(es0.contains((a, b)));
                    let idx = choose|idx: int| 0 <= idx < es0.len() && es0[idx] == (a, b);
                    assert(es@[idx] == (a, b));
                }
                assert forall|b: usize| i < b < j implies es@.contains((i, b)) by {
                    if b < j - 1 {
                        assert(es0.contains((i, b)));
                        let idx = choose|idx: int| 0 <= idx < es0.len() && es0[idx] == (i, b);
                        assert(es@[idx] == (i, b));
                    } else {
                        assert(b == (j - 1) as usize);
                        assert(es@[es0.len() as int] == (i, b));
                    }
                }
            }
        }
        proof {
            assert(2 * es@.len() == i * (2 * (n as int) - i - 1) + 2 * ((n as int) - i - 1));
            assert(i * (2 * (n as int) - i - 1) + 2 * ((n as int) - i - 1) == (i + 1) * (2 * (
            n as int) - (i + 1) - 1)) by (nonlinear_arith);
        }
        i = i + 1;
    }
    proof {
        assert forall|m1: int, m2: int|
            0 <= m1 < m2 < es@.len() implies es@[m1] != es@[m2] by {
            assert(lex_lt(es@[m1], es@[m2]));
        }
    }
    es
}

/// Executable form of the catalog order.
fn edge_le_exec(points: &Vec<Pos>, a: (usize, usize), b: (usize, usize)) -> (r: bool)
    requires
        forall|t: int| 0 <= t < points@.len() ==> pos_in_bounds(#[trigger] points@[t]),
        a.0 < points@.len() && a.1 < points@.len(),
        b.0 < points@.len() && b.1 < points@.len(),
    ensures
        r == edge_le(points@, a, b),
{
    let da = points[a.0].dist(&points[a.1]);
    let db = points[b.0].dist(&points[b.1]);
    da < db || (da == db && (a.0 < b.0 || (a.0 == b.0 && a.1 <= b.1)))
}

/// Stable-equivalent sort of the candidate edges: since the order compares
/// the index pair itself on distance ties, the sorted catalog is unique and
/// does not depend on the sorting algorithm.
fn sort_edges(points: &Vec<Pos>, es: &Vec<(usize, usize)>) -> (out: Vec<(usize, usize)>)
    requires
        forall|t: int| 0 <= t < points@.len() ==> pos_in_bounds(#[trigger] points@[t]),
        forall|m: int| 0 <= m < es@.len() ==> (#[trigger] es@[m]).0 < es@[m].1 < points@.len(),
    ensures
        out@.to_multiset() == es@.to_multiset(),
        vstd::relations::sorted_by(
            out@,
            |a: (usize, usize), b: (usize, usize)| edge_le(points@, a, b),
        ),
        forall|m: int| 0 <= m < out@.len() ==> (#[trigger] out@[m]).0 < out@[m].1 < points@.len(),
        out@.len() == es@.len(),
{
    let ghost leq = |a: (usize, usize), b: (usize, usize)| edge_le(points@, a, b);
    let mut out: Vec<(usize, usize)> = Vec::new();
    let mut t: usize = 0;
    proof {
        assert(es@.take(0) =~= Seq::<(usize, usize)>::empty());
        assert(out@.to_multiset() =~= es@.take(0).to_multiset());
    }
    while t < es.len()
        invariant
            t <= es@.len(),
            forall|tt: int| 0 <= tt < points@.len() ==> pos_in_bounds(#[trigger] points@[tt]),
            forall|m: int| 0 <= m < es@.len() ==> (#[trigger] es@[m]).0 < es@[m].1 < points@.len(),
            forall|m: int|
                0 <= m < out@.len() ==> (#[trigger] out@[m]).0 < out@[m].1 < points@.len(),
            leq == (|a: (usize, usize), b: (usize, usize)| edge_le(points@, a, b)),
            out@.to_multiset() == es@.take(t as int).to_multiset(),
            out@.len() == t as int,
            vstd::relations::sorted_by(out@, leq),
        decreases es@.len() - t,
    {
        let e = es[t];
        let ghost out0 = out@;
        let mut pos: usize = 0;
        while pos < out.len() && edge_le_exec(points, out[pos], e)
            invariant
                pos <= out@.len(),
                out@ == out0,
                forall|tt: int| 0 <= tt < points@.len() ==> pos_in_bounds(#[trigger] points@[tt]),
                forall|m: int|
                    0 <= m < out@.len() ==> (#[trigger] out@[m]).0 < out@[m].1 < points@.len(),
                e.0 < points@.len() && e.1 < points@.len(),
                forall|q: int| 0 <= q < pos ==> edge_le(points@, #[trigger] out@[q], e),
            decreases out@.len() - pos,
        {
            pos = pos + 1;
        }
        out.insert(pos, e);
        proof {
            broadcast use vstd::seq_lib::to_multiset_insert;
            broadcast use vstd::seq_lib::to_multiset_build;

            assert(es@.take(t + 1) =~= es@.take(t as int).push(e));
            assert(out@ == out0.insert(pos as int, e));
            assert(out@.to_multiset() =~= es@.take(t + 1).to_multiset());
            assert forall|m1: int, m2: int| 0 <= m1 < m2 < out@.len() implies leq(
                out@[m1],
                out@[m2],
            ) by {
                if m2 < pos {
                } else if m1 < pos && m2 == pos {
                    assert(edge_le(points@, out0[m1], e));
                } else if m1 < pos {
                    assert(leq(out0[m1], out0[m2 - 1]));
                } else if m1 == pos {
                    // e goes before the old element at `pos`; the order is
                    // total, so the failed comparison flips.
                    assert(!edge_le(points@, out0[pos as int], e));
                    assert(edge_le(points@, e, out0[pos as int]));
                    if m2 > pos + 1 {
                        assert(leq(out0[pos as int], out0[m2 - 1]));
                    }
                } else {
                    assert(leq(out0[m1 - 1], out0[m2 - 1]));
                }
            }
        }
        t = t + 1;
    }
    proof {
        assert(es@.take(es@.len() as int) =~= es@);
    }
    out
}

/// The sorted catalog of a point sequence is unique: the order compares the
/// index pair itself on distance ties, so no two distinct catalogs can both
/// be sorted. This is the determinism behind the documented tie-break.
pub proof fn lemma_sorted_catalog_unique(
    points: Seq<Pos>,
    e1: Seq<(usize, usize)>,
    e2: Seq<(usize, usize)>,
)
    requires
        sorted_catalog(points, e1),
        sorted_catalog(points, e2),
    ensures
        e1 == e2,
{
    let leq = |a: (usize, usize), b: (usize, usize)| edge_le(points, a, b);
    lemma_edge_le_total(points);
    e1.lemma_multiset_has_no_duplicates();
    e2.lemma_multiset_has_no_duplicates();
    assert(e1.to_multiset() =~= e2.to_multiset()) by {
        broadcast use vstd::seq_lib::group_to_multiset_ensures;

        assert forall|x: (usize, usize)| e1.to_multiset().count(x) == e2.to_multiset().count(
            x,
        ) by {
            if e1.contains(x) || e2.contains(x) {
                assert(x.0 < x.1 < points.len());
                assert(e1.contains(x) && e2.contains(x));
            }
        }
    }
    vstd::seq_lib::lemma_sorted_unique(e1, e2, leq);
}

/// The catalog order is a total order.
proof fn lemma_edge_le_total(points: Seq<Pos>)
    ensures
        vstd::relations::total_ordering(
            |a: (usize, usize), b: (usize, usize)| edge_le(points, a, b),
        ),
{
    let leq = |a: (usize, usize), b: (usize, usize)| edge_le(points, a, b);
    assert forall|a: (usize, usize), b: (usize, usize)| #[trigger]
        leq(a, b) && leq(b, a) implies a == b by {
        assert(a.0 == b.0 && a.1 == b.1);
    }
    assert forall|a: (usize, usize), b: (usize, usize)| true implies #[trigger] leq(a, b) || leq(
        b,
        a,
    ) by {}
    assert(vstd::relations::reflexive(leq));
    assert(vstd::relations::antisymmetric(leq));
    assert(vstd::relations::transitive(leq));
    assert(vstd::relations::strongly_connected(leq));
}

/// A candidate connection between two points, with its squared distance.
#[derive(Debug, PartialEq, Eq, Clone, Copy, Structural)]
pub struct Edge {
    pub u: Pos,
    pub v: Pos,
    pub dist: i64,
}

/// Builds one edge for every unordered pair, in the order the `i < j`
/// enumeration discovers them: exactly `n * (n - 1) / 2` edges, each with
/// the exact squared distance of its endpoints.
pub fn build_edges(points: &Vec<Pos>) -> (edges: Vec<Edge>)
    requires
        forall|t: int| 0 <= t < points@.len() ==> pos_in_bounds(#[trigger] points@[t]),
    ensures
        2 * edges@.len() == points@.len() * (points@.len() as int - 1),
        exists|es: Seq<(usize, usize)>|
            {
                &&& pair_catalog(points@.len(), es)
                &&& lex_sorted(es)
                &&& es.len() == edges@.len()
                &&& forall|m: int|
                    0 <= m < es.len() ==> #[trigger] edges@[m] == (Edge {
                        u: points@[es[m].0 as int],
                        v: points@[es[m].1 as int],
                        dist: sq_dist(points@[es[m].0 as int], points@[es[m].1 as int]) as i64,
                    })
            },
{
    let pairs = build_pair_catalog(points.len());
    let mut edges: Vec<Edge> = Vec::new();
    let mut t: usize = 0;
    while t < pairs.len()
        invariant
            t <= pairs@.len(),
            forall|tt: int| 0 <= tt < points@.len() ==> pos_in_bounds(#[trigger] points@[tt]),
            forall|m: int|
                0 <= m < pairs@.len() ==> (#[trigger] pairs@[m]).0 < pairs@[m].1 < points@.len(),
            edges@.len() == t as int,
            forall|m: int|
                0 <= m < t ==> #[trigger] edges@[m] == (Edge {
                    u: points@[pairs@[m].0 as int],
                    v: points@[pairs@[m].1 as int],
                    dist: sq_dist(points@[pairs@[m].0 as int], points@[pairs@[m].1 as int]) as i64,
                }),
        decreases pairs@.len() - t,
    {
        let (a, b) = pairs[t];
        let d = points[a].dist(&points[b]);
        edges.push(Edge { u: points[a], v: points[b], dist: d });
        t = t + 1;
    }
    proof {
        let ghost es = pairs@;
        assert(pair_catalog(points@.len(), es) && lex_sorted(es) && es.len() == edges@.len());
    }
    edges
}

// ---------------------------------------------------------------------------
// Bounded single-linkage clustering.
// ---------------------------------------------------------------------------

/// The members of the cluster containing `rep` once `pairs` have been
/// applied.
pub open spec fn class_of(n: nat, pairs: Seq<(usize, usize)>, rep: int) -> Set<int> {
    Set::new(|j: int| 0 <= j < n && joined(pairs, j, rep))
}

pub open spec fn class_size(n: nat, pairs: Seq<(usize, usize)>, rep: int) -> int {
    class_of(n, pairs, rep).len() as int
}

/// Some entry of `reps` represents `j`.
pub open spec fn has_rep(pairs: Seq<(usize, usize)>, reps: Seq<int>, j: int) -> bool {
    exists|m: int| 0 <= m < reps.len() && joined(pairs, j, #[trigger] reps[m])
}

/// `reps` holds exactly one representative of every cluster of `0 .. n`
/// under the partition that `pairs` induces.
pub open spec fn cluster_reps(n: nat, pairs: Seq<(usize, usize)>, reps: Seq<int>) -> bool {
    &&& forall|m: int| 0 <= m < reps.len() ==> 0 <= #[trigger] reps[m] < n
    &&& forall|m1: int, m2: int|
        0 <= m1 < m2 < reps.len() ==> !joined(pairs, #[trigger] reps[m1], #[trigger] reps[m2])
    &&& forall|j: int| 0 <= j < n ==> #[trigger] has_rep(pairs, reps, j)
}

/// `sizes` is the multiset of cluster sizes of the partition of `0 .. n`
/// induced by `pairs`: the sizes of the classes of a full system of
/// distinct representatives, in some order.
pub open spec fn valid_cluster_sizes(n: nat, pairs: Seq<(usize, usize)>, sizes: Seq<usize>) -> bool {
    exists|reps: Seq<int>|
        {
            &&& cluster_reps(n, pairs, reps)
            &&& sizes.len() == reps.len()
            &&& forall|m: int|
                0 <= m < reps.len() ==> #[trigger] sizes[m] == class_size(n, pairs, reps[m])
        }
}

/// A permutation of a pair catalog is a pair catalog.
proof fn lemma_catalog_transfer(n: nat, a: Seq<(usize, usize)>, b: Seq<(usize, usize)>)
    requires
        pair_catalog(n, a),
        b.to_multiset() == a.to_multiset(),
    ensures
        pair_catalog(n, b),
{
    broadcast use vstd::seq_lib::group_to_multiset_ensures;

    assert forall|m: int| 0 <= m < b.len() implies (#[trigger] b[m]).0 < b[m].1 < n by {
        assert(b.contains(b[m]));
        assert(b.to_multiset().count(b[m]) > 0);
        assert(a.contains(b[m]));
    }
    assert forall|i: usize, j: usize| i < j < n implies b.contains((i, j)) by {
        assert(a.contains((i, j)));
        assert(a.to_multiset().count((i, j)) > 0);
    }
    a.lemma_multiset_has_no_duplicates();
    assert forall|x: (usize, usize)|
        b.to_multiset().contains(x) implies b.to_multiset().count(x) == 1 by {
        assert(a.to_multiset().count(x) == b.to_multiset().count(x));
    }
    b.lemma_multiset_has_no_duplicates_conv();
}

/// The members of `0 .. hi` whose representative in `p` is `rep`.
spec fn members_set(p: Seq<usize>, rep: int, hi: int) -> Set<int> {
    Set::new(|jj: int| 0 <= jj < hi && root_of(p, jj) == rep)
}

/// The members of `0 .. n` whose representative is below `hi_rep`.
spec fn members_below(p: Seq<usize>, n: int, hi_rep: int) -> Set<int> {
    Set::new(|jj: int| 0 <= jj < n && root_of(p, jj) < hi_rep)
}

proof fn lemma_members_finite(p: Seq<usize>, rep: int, hi: int)
    requires
        hi >= 0,
    ensures
        members_set(p, rep, hi).finite(),
        members_set(p, rep, hi).len() <= hi,
{
    let rng = vstd::set_lib::set_int_range(0, hi);
    vstd::set_lib::lemma_int_range(0, hi);
    assert(members_set(p, rep, hi).subset_of(rng));
    vstd::set_lib::lemma_len_subset(members_set(p, rep, hi), rng);
}

proof fn lemma_members_below_finite(p: Seq<usize>, n: int, hi_rep: int)
    requires
        n >= 0,
    ensures
        members_below(p, n, hi_rep).finite(),
        members_below(p, n, hi_rep).len() <= n,
{
    let rng = vstd::set_lib::set_int_range(0, n);
    vstd::set_lib::lemma_int_range(0, n);
    assert(members_below(p, n, hi_rep).subset_of(rng));
    vstd::set_lib::lemma_len_subset(members_below(p, n, hi_rep), rng);
}

/// Splitting the members with representative below `r + 1` into those below
/// `r` and those with representative exactly `r`.
proof fn lemma_members_split(p: Seq<usize>, n: int, r: int)
    requires
        n >= 0,
    ensures
        members_below(p, n, r + 1).len() == members_below(p, n, r).len() + members_set(
            p,
            r,
            n,
        ).len(),
{
    lemma_members_below_finite(p, n, r);
    lemma_members_below_finite(p, n, r + 1);
    lemma_members_finite(p, r, n);
    assert(members_below(p, n, r + 1) =~= members_below(p, n, r) + members_set(p, r, n));
    lemma_disjoint_union_len(members_below(p, n, r), members_set(p, r, n));
}

/// A representative is always inside `0 .. n`.
proof fn lemma_wf_root_in_range(p: Seq<usize>, r: Seq<usize>, x: int)
    requires
        valid_parents(p),
        ranks_increase(p, r),
        0 <= x < p.len(),
    ensures
        0 <= root_of(p, x) < p.len(),
{
    lemma_rooted(p, r, x);
}

/// When the partition of the union-find state matches `joined(pairs)`, the
/// class of a root `rep` is exactly the set of indices represented by it.
proof fn lemma_class_is_members(
    p: Seq<usize>,
    rk: Seq<usize>,
    pairs: Seq<(usize, usize)>,
    n: nat,
    rep: int,
)
    requires
        valid_parents(p),
        ranks_increase(p, rk),
        p.len() == n,
        forall|a: int, b: int|
            0 <= a < n && 0 <= b < n ==> (#[trigger] same_set(p, a, b) <==> joined(pairs, a, b)),
        is_root(p, rep),
    ensures
        class_of(n, pairs, rep) =~= members_set(p, rep, n as int),
{
    lemma_root_of_root(p, rep);
    assert forall|j: int| 0 <= j < n implies (joined(pairs, j, rep) <==> root_of(p, j) == rep) by {
        assert(same_set(p, j, rep) <==> joined(pairs, j, rep));
    }
}

/// A sequence of ones sums to its length.
proof fn lemma_sum_ones(s: Seq<usize>)
    requires
        forall|m: int| 0 <= m < s.len() ==> #[trigger] s[m] == 1,
    ensures
        seq_sum(s) == s.len(),
    decreases s.len(),
{
    if s.len() > 0 {
        lemma_sum_ones(s.drop_last());
    }
}

/// Cardinality of a disjoint union is the sum of the cardinalities.
proof fn lemma_disjoint_union_len(a: Set<int>, b: Set<int>)
    requires
        a.finite(),
        b.finite(),
        a.disjoint(b),
    ensures
        (a + b).len() == a.len() + b.len(),
    decreases b.len(),
{
    if b.len() == 0 {
        b.lemma_len0_is_empty();
        assert(a + b =~= a);
    } else {
        if b.is_empty() {
            assert(b =~= Set::empty());
            assert(false);
        }
        let x = b.choose();
        assert(b.contains(x));
        lemma_disjoint_union_len(a, b.remove(x));
        assert(a + b =~= (a + b.remove(x)).insert(x));
        assert(!(a + b.remove(x)).contains(x));
    }
}

/// The number of distinct connections actually applied: all of them if
/// fewer than `k` exist.
pub open spec fn applied_count(k: int, total: int) -> int {
    if k <= total {
        k
    } else {
        total
    }
}

/// Bounded clustering: sort the full candidate catalog, apply its first `k`
/// edges, and report every cluster's size (singletons included). The sizes
/// are exactly the class sizes of the partition that the first `k` edges of
/// the unique sorted catalog induce; they always sum to the number of
/// points, and `k == 0` yields all singletons.
pub fn cluster_bounded(points: &Vec<Pos>, k: usize) -> (sizes: Vec<usize>)
    requires
        forall|t: int| 0 <= t < points@.len() ==> pos_in_bounds(#[trigger] points@[t]),
    ensures
        exists|es: Seq<(usize, usize)>|
            {
                &&& #[trigger] sorted_catalog(points@, es)
                &&& valid_cluster_sizes(
                    points@.len(),
                    es.take(applied_count(k as int, es.len() as int)),
                    sizes@,
                )
            },
        seq_sum(sizes@) == points@.len(),
        forall|m: int| 0 <= m < sizes@.len() ==> 1 <= #[trigger] sizes@[m],
        k == 0 ==> sizes@ == Seq::new(points@.len(), |i: int| 1usize),
{
    let n = points.len();
    let pairs0 = build_pair_catalog(n);
    let es = sort_edges(points, &pairs0);
    proof {
        lemma_catalog_transfer(n as nat, pairs0@, es@);
    }
    let kk = if k < es.len() {
        k
    } else {
        es.len()
    };
    let ghost pairs_k = es@.take(kk as int);
    let mut uf = UnionFind::new(n);
    let mut t: usize = 0;
    proof {
        assert(es@.take(0) =~= Seq::<(usize, usize)>::empty());
        assert forall|a: int, b: int|
            0 <= a < n && 0 <= b < n implies (same_set(uf.parents(), a, b) <==> joined(
            es@.take(0),
            a,
            b,
        )) by {}
    }
    while t < kk
        invariant
            t <= kk <= es@.len(),
            uf.wf(),
            uf.n() == n as nat,
            forall|m: int| 0 <= m < es@.len() ==> (#[trigger] es@[m]).0 < es@[m].1 < n,
            forall|a: int, b: int|
                0 <= a < n && 0 <= b < n ==> (#[trigger] same_set(uf.parents(), a, b) <==> joined(
                    es@.take(t as int),
                    a,
                    b,
                )),
        decreases kk - t,
    {
        let (a, b) = es[t];
        let ghost p_before = uf.parents();
        uf.union(a, b);
        proof {
            assert(es@.take(t + 1).drop_last() =~= es@.take(t as int));
            assert(es@.take(t + 1).last() == es@[t as int]);
            assert forall|x: int, y: int|
                0 <= x < n && 0 <= y < n implies (#[trigger] same_set(uf.parents(), x, y) <==>
            joined(es@.take(t + 1), x, y)) by {}
        }
        t = t + 1;
    }
    // Count members per representative.
    let ghost p_base = uf.parents();
    let ghost rk0 = uf.rank_seq();
    let mut counts: Vec<usize> = Vec::new();
    let mut z: usize = 0;
    while z < n
        invariant
            z <= n,
            counts@.len() == z as int,
            forall|m: int| 0 <= m < z ==> counts@[m] == 0,
        decreases n - z,
    {
        counts.push(0);
        z = z + 1;
    }
    proof {
        assert forall|rep: int|
            0 <= rep < n implies counts@[rep] == members_set(p_base, rep, 0).len() by {
            assert(members_set(p_base, rep, 0) =~= Set::<int>::empty());
        }
    }
    let mut j: usize = 0;
    while j < n
        invariant
            j <= n,
            uf.wf(),
            uf.n() == n as nat,
            counts@.len() == n as int,
            uf.rank_seq() == rk0,
            p_base.len() == n as nat,
            valid_parents(p_base),
            ranks_increase(p_base, rk0),
            forall|a: int| 0 <= a < n ==> root_of(uf.parents(), a) == root_of(p_base, a),
            forall|a: int, b: int|
                0 <= a < n && 0 <= b < n ==> (#[trigger] same_set(p_base, a, b) <==> joined(
                    pairs_k,
                    a,
                    b,
                )),
            forall|rep: int|
                0 <= rep < n ==> #[trigger] counts@[rep] == members_set(
                    p_base,
                    rep,
                    j as int,
                ).len(),
        decreases n - j,
    {
        let r = uf.find(j);
        proof {
            assert(r == root_of(p_base, j as int));
            lemma_wf_root_in_range(p_base, rk0, j as int);
            let s_old = members_set(p_base, r as int, j as int);
            let rng = vstd::set_lib::set_int_range(0, j as int);
            vstd::set_lib::lemma_int_range(0, j as int);
            assert(s_old.subset_of(rng));
            vstd::set_lib::lemma_len_subset(s_old, rng);
        }
        let c = counts[r];
        counts.set(r, c + 1);
        proof {
            assert forall|rep: int|
                0 <= rep < n implies #[trigger] counts@[rep] == members_set(
                p_base,
                rep,
                j + 1,
            ).len() by {
                if rep == r as int {
                    assert(members_set(p_base, rep, j + 1) =~= members_set(
                        p_base,
                        rep,
                        j as int,
                    ).insert(j as int));
                    assert(!members_set(p_base, rep, j as int).contains(j as int));
                    lemma_members_finite(p_base, rep, j as int);
                } else {
                    assert(members_set(p_base, rep, j + 1) =~= members_set(p_base, rep, j as int));
                }
            }
        }
        j = j + 1;
    }
    // Collect the sizes of the non-empty classes: one per root.
    let mut sizes: Vec<usize> = Vec::new();
    let ghost mut reps: Seq<int> = Seq::empty();
    let mut r: usize = 0;
    proof {
        broadcast use vstd::set::group_set_axioms;

        assert(members_below(p_base, n as int, 0) =~= Set::<int>::empty()) by {
            assert forall|jj: int|
                !(#[trigger] members_below(p_base, n as int, 0).contains(jj)) by {
                if 0 <= jj < n {
                    lemma_wf_root_in_range(p_base, rk0, jj);
                }
            }
        }
        assert(members_below(p_base, n as int, 0).len() == 0);
        assert(seq_sum(sizes@) == 0);
    }
    while r < n
        invariant
            r <= n,
            counts@.len() == n as int,
            points@.len() == n as nat,
            p_base.len() == n as nat,
            valid_parents(p_base),
            ranks_increase(p_base, rk0),
            forall|rep: int|
                0 <= rep < n ==> #[trigger] counts@[rep] == members_set(p_base, rep, n as int).len(),
            forall|a: int, b: int|
                0 <= a < n && 0 <= b < n ==> (#[trigger] same_set(p_base, a, b) <==> joined(
                    pairs_k,
                    a,
                    b,
                )),
            sizes@.len() == reps.len(),
            forall|m: int| 0 <= m < reps.len() ==> 0 <= #[trigger] reps[m] < r,
            forall|m: int| 0 <= m < reps.len() ==> is_root(p_base, #[trigger] reps[m]),
            forall|m1: int, m2: int| 0 <= m1 < m2 < reps.len() ==> reps[m1] < reps[m2],
            forall|rr: int|
                0 <= rr < r && is_root(p_base, rr) ==> exists|m: int|
                    0 <= m < reps.len() && reps[m] == rr,
            forall|m: int|
                0 <= m < reps.len() ==> #[trigger] sizes@[m] == class_size(
                    points@.len(),
                    pairs_k,
                    reps[m],
                ),
            forall|m: int| 0 <= m < sizes@.len() ==> 1 <= #[trigger] sizes@[m],
            seq_sum(sizes@) == members_below(p_base, n as int, r as int).len(),
        decreases n - r,
    {
        let c = counts[r];
        proof {
            lemma_members_split(p_base, n as int, r as int);
        }
        if c > 0 {
            proof {
                let s_r = members_set(p_base, r as int, n as int);
                assert(exists|w: int| s_r.contains(w)) by {
                    if forall|w: int| !(#[trigger] s_r.contains(w)) {
                        assert(s_r =~= Set::<int>::empty());
                        assert(s_r.len() == 0);
                    }
                }
                let w = choose|w: int| s_r.contains(w);
                lemma_rooted(p_base, rk0, w);
                assert(is_root(p_base, r as int));
            }
            let ghost sizes0 = sizes@;
            let ghost reps0 = reps;
            sizes.push(c);
            proof {
                reps = reps.push(r as int);
                assert(sizes@ == sizes0.push(c));
                assert(sizes@.drop_last() =~= sizes0);
                assert(sizes@.last() == c);
                assert(seq_sum(sizes@) == seq_sum(sizes0) + c);
                // The class of r is exactly the members counted for r.
                assert(class_of(points@.len(), pairs_k, r as int) =~= members_set(
                    p_base,
                    r as int,
                    n as int,
                )) by {
                    lemma_class_is_members(p_base, rk0, pairs_k, n as nat, r as int);
                }
                assert(class_size(points@.len(), pairs_k, r as int) == c);
                assert(reps[reps.len() - 1] == r as int);
                assert(sizes@[sizes@.len() - 1] == c);
                assert(forall|m: int| 0 <= m < reps0.len() ==> reps[m] == reps0[m]);
                assert(forall|m: int| 0 <= m < sizes0.len() ==> sizes@[m] == sizes0[m]);
                assert forall|rr: int|
                    0 <= rr < r + 1 && is_root(p_base, rr) implies exists|m: int|
                    0 <= m < reps.len() && reps[m] == rr by {
                    if rr < r {
                        let m0 = choose|m0: int| 0 <= m0 < reps0.len() && reps0[m0] == rr;
                        assert(reps[m0] == rr);
                    } else {
                        assert(reps[reps.len() - 1] == rr);
                    }
                }
            }
        } else {
            proof {
                let s_r = members_set(p_base, r as int, n as int);
                if is_root(p_base, r as int) {
                    lemma_root_of_root(p_base, r as int);
                    assert(s_r.contains(r as int));
                    lemma_members_finite(p_base, r as int, n as int);
                    if s_r.len() == 0 {
                        s_r.lemma_len0_is_empty();
                    }
                    assert(false);
                }
                assert(s_r.len() == 0) by {
                    assert(s_r =~= Set::<int>::empty()) by {
                        assert forall|jj: int| !(#[trigger] s_r.contains(jj)) by {
                            if s_r.contains(jj) {
                                lemma_rooted(p_base, rk0, jj);
                            }
                        }
                    }
                }
            }
        }
        r = r + 1;
    }
    proof {
        let rk = rk0;
        // Every index is represented by exactly one entry of `reps`.
        assert forall|jx: int| 0 <= jx < n implies #[trigger] has_rep(pairs_k, reps, jx) by {
            lemma_rooted(p_base, rk, jx);
            let rt = root_of(p_base, jx);
            assert(is_root(p_base, rt));
            let m = choose|m: int| 0 <= m < reps.len() && reps[m] == rt;
            lemma_root_of_root(p_base, rt);
            assert(same_set(p_base, jx, rt));
            assert(joined(pairs_k, jx, reps[m]));
        }
        assert forall|m1: int, m2: int|
            0 <= m1 < m2 < reps.len() implies !joined(pairs_k, #[trigger] reps[m1], #[trigger] reps[m2]) by {
            lemma_root_of_root(p_base, reps[m1]);
            lemma_root_of_root(p_base, reps[m2]);
            assert(!same_set(p_base, reps[m1], reps[m2]));
        }
        assert(cluster_reps(points@.len(), pairs_k, reps));
        assert(valid_cluster_sizes(points@.len(), pairs_k, sizes@));
        // The running sum covered every index.
        assert(members_below(p_base, n as int, n as int) =~= vstd::set_lib::set_int_range(
            0,
            n as int,
        )) by {
            assert forall|jx: int|
                0 <= jx < n implies root_of(p_base, jx) < n by {
                lemma_wf_root_in_range(p_base, rk, jx);
            }
        }
        vstd::set_lib::lemma_int_range(0, n as int);
        assert(seq_sum(sizes@) == points@.len());
        assert(sorted_catalog(points@, es@));
        assert(pairs_k == es@.take(applied_count(k as int, es@.len() as int)));
        if k == 0 {
            // No edges applied: every class is the singleton of its
            // representative, so the result is `n` ones.
            assert(pairs_k =~= Seq::<(usize, usize)>::empty());
            assert forall|m: int| 0 <= m < sizes@.len() implies #[trigger] sizes@[m] == 1 by {
                assert(class_of(points@.len(), pairs_k, reps[m]) =~= Set::<int>::empty().insert(
                    reps[m],
                ));
            }
            lemma_sum_ones(sizes@);
            assert(sizes@.len() == points@.len());
            assert(sizes@ =~= Seq::new(points@.len(), |i: int| 1usize));
        }
    }
    sizes
}

// ---------------------------------------------------------------------------
// Full single-linkage to the last bridge (Kruskal's final structural edge).
// ---------------------------------------------------------------------------

/// If everything is in one component, there is exactly one root.
proof fn lemma_all_same_one_root(p: Seq<usize>, rk: Seq<usize>)
    requires
        valid_parents(p),
        ranks_increase(p, rk),
        p.len() >= 1,
        forall|a: int, b: int| 0 <= a < p.len() && 0 <= b < p.len() ==> same_set(p, a, b),
    ensures
        roots_set(p).len() == 1,
{
    lemma_rooted(p, rk, 0);
    let r0 = root_of(p, 0);
    assert(roots_set(p).contains(r0));
    assert(roots_set(p) =~= Set::<int>::empty().insert(r0)) by {
        assert forall|x: int| roots_set(p).contains(x) implies x == r0 by {
            lemma_root_of_root(p, x);
            assert(same_set(p, x, 0));
        }
    }
}

/// With exactly one root, everything is in one component.
proof fn lemma_one_root_all_same(p: Seq<usize>, rk: Seq<usize>)
    requires
        valid_parents(p),
        ranks_increase(p, rk),
        roots_set(p).len() == 1,
    ensures
        forall|a: int, b: int| 0 <= a < p.len() && 0 <= b < p.len() ==> same_set(p, a, b),
{
    lemma_roots_set_finite(p);
    assert forall|a: int, b: int|
        0 <= a < p.len() && 0 <= b < p.len() implies same_set(p, a, b) by {
        lemma_rooted(p, rk, a);
        lemma_rooted(p, rk, b);
        let ra = root_of(p, a);
        let rb = root_of(p, b);
        assert(roots_set(p).contains(ra));
        assert(roots_set(p).contains(rb));
        if ra != rb {
            assert(roots_set(p).remove(ra).contains(rb));
            assert(roots_set(p).remove(ra).len() == 0);
        }
    }
}

/// Applying the whole catalog connects every pair of indices.
proof fn lemma_full_catalog_all_joined(n: nat, es: Seq<(usize, usize)>)
    requires
        pair_catalog(n, es),
        n <= usize::MAX,
    ensures
        all_joined(n, es),
{
    assert forall|a: int, b: int| 0 <= a < n && 0 <= b < n implies joined(es, a, b) by {
        if a == b {
            lemma_joined_refl(es, a);
        } else {
            let (lo, hi) = if a < b {
                (a, b)
            } else {
                (b, a)
            };
            assert(es.contains((lo as usize, hi as usize)));
            let m = choose|m: int| 0 <= m < es.len() && es[m] == (lo as usize, hi as usize);
            assert(es.take(m + 1).drop_last() =~= es.take(m));
            lemma_joined_refl(es.take(m), lo);
            lemma_joined_refl(es.take(m), hi);
            assert(joined(es.take(m + 1), lo, hi));
            lemma_cluster_coarsening(es, m + 1, es.len() as int);
            assert(es.take(es.len() as int) =~= es);
            assert(joined(es, lo, hi));
            if a > b {
                lemma_joined_symm(es, lo, hi);
            }
        }
    }
}

/// What the returned bridging edge is: the `kk`-th edge of the unique
/// sorted catalog, the first one whose application makes the point set a
/// single component, itself a structural (component-reducing) edge between
/// two distinct indices.
pub open spec fn bridging_pin(points: Seq<Pos>, u: Pos, v: Pos) -> bool {
    exists|es: Seq<(usize, usize)>|
        #[trigger] sorted_catalog(points, es) && exists|kk: int|
            {
                &&& 0 <= kk < es.len()
                &&& u == points[es[kk].0 as int]
                &&& v == points[es[kk].1 as int]
                &&& !joined(#[trigger] es.take(kk), es[kk].0 as int, es[kk].1 as int)
                &&& all_joined(points.len(), es.take(kk + 1))
                &&& !all_joined(points.len(), es.take(kk))
            }
}

/// Kruskal's last structural edge: process the sorted catalog, merge
/// components, and return the edge that reduced the component count from
/// two to one. Fewer than two points have no bridging edge.
pub fn find_bridging_edge(points: &Vec<Pos>) -> (r: Option<(Pos, Pos)>)
    requires
        forall|t: int| 0 <= t < points@.len() ==> pos_in_bounds(#[trigger] points@[t]),
    ensures
        r.is_some() <==> points@.len() >= 2,
        match r {
            Some(uv) => bridging_pin(points@, uv.0, uv.1),
            None => points@.len() < 2,
        },
{
    let n = points.len();
    let pairs0 = build_pair_catalog(n);
    let es = sort_edges(points, &pairs0);
    proof {
        lemma_catalog_transfer(n as nat, pairs0@, es@);
    }
    let mut uf = UnionFind::new(n);
    let mut t: usize = 0;
    proof {
        assert(es@.take(0) =~= Seq::<(usize, usize)>::empty());
    }
    while t < es.len()
        invariant
            t <= es@.len(),
            uf.wf(),
            uf.n() == n as nat,
            points@.len() == n as nat,
            forall|tt: int| 0 <= tt < points@.len() ==> pos_in_bounds(#[trigger] points@[tt]),
            sorted_catalog(points@, es@),
            forall|m: int| 0 <= m < es@.len() ==> (#[trigger] es@[m]).0 < es@[m].1 < n,
            forall|a: int, b: int|
                0 <= a < n && 0 <= b < n ==> (#[trigger] same_set(uf.parents(), a, b) <==> joined(
                    es@.take(t as int),
                    a,
                    b,
                )),
            n >= 2 ==> uf.components() >= 2,
        decreases es@.len() - t,
    {
        let (a, b) = es[t];
        let ghost p_before = uf.parents();
        let ghost rk_before = uf.rank_seq();
        let ghost comp_before = uf.components();
        let merged = uf.union(a, b);
        proof {
            assert(es@.take(t + 1).drop_last() =~= es@.take(t as int));
            assert(es@.take(t + 1).last() == es@[t as int]);
            assert forall|x: int, y: int|
                0 <= x < n && 0 <= y < n implies (#[trigger] same_set(uf.parents(), x, y) <==>
            joined(es@.take(t + 1), x, y)) by {}
        }
        if merged {
            if uf.num_components() == 1 {
                proof {
                    let rk_now = uf.rank_seq();
                    assert(valid_parents(uf.parents()) && ranks_increase(uf.parents(), rk_now));
                    lemma_one_root_all_same(uf.parents(), rk_now);
                    assert forall|x: int, y: int|
                        0 <= x < n && 0 <= y < n implies #[trigger] joined(
                        es@.take(t + 1),
                        x,
                        y,
                    ) by {
                        assert(same_set(uf.parents(), x, y));
                    }
                    assert(all_joined(n as nat, es@.take(t + 1)));
                    assert(comp_before == 2);
                    assert(valid_parents(p_before) && ranks_increase(p_before, rk_before));
                    assert(!all_joined(n as nat, es@.take(t as int))) by {
                        if all_joined(n as nat, es@.take(t as int)) {
                            lemma_all_same_one_root(p_before, rk_before);
                        }
                    }
                    assert(!joined(es@.take(t as int), a as int, b as int));
                    lemma_roots_set_finite(p_before);
                    assert(n >= 2);
                    assert(bridging_pin(points@, points@[a as int], points@[b as int])) by {
                        assert(sorted_catalog(points@, es@));
                        assert(0 <= t < es@.len() && es@[t as int] == (a, b));
                    }
                }
                return Some((points[a], points[b]));
            }
        }
        t = t + 1;
    }
    proof {
        if n >= 2 {
            lemma_full_catalog_all_joined(n as nat, es@);
            assert(es@.take(es@.len() as int) =~= es@);
            let rk_now = uf.rank_seq();
            assert(valid_parents(uf.parents()) && ranks_increase(uf.parents(), rk_now));
            assert forall|x: int, y: int|
                0 <= x < n && 0 <= y < n implies same_set(uf.parents(), x, y) by {
                assert(joined(es@.take(es@.len() as int), x, y));
            }
            lemma_all_same_one_root(uf.parents(), rk_now);
            assert(false);
        }
    }
    None
}

/// For pairwise-distinct points the bridging edge connects two distinct
/// points: its endpoints come from two different input positions.
pub proof fn lemma_bridging_endpoints_distinct(points: Seq<Pos>, u: Pos, v: Pos)
    requires
        bridging_pin(points, u, v),
        forall|i: int, j: int|
            0 <= i < j < points.len() ==> #[trigger] points[i] != #[trigger] points[j],
    ensures
        u != v,
{
    let es = choose|es: Seq<(usize, usize)>|
        #[trigger] sorted_catalog(points, es) && exists|kk: int|
            {
                &&& 0 <= kk < es.len()
                &&& u == points[es[kk].0 as int]
                &&& v == points[es[kk].1 as int]
                &&& !joined(#[trigger] es.take(kk), es[kk].0 as int, es[kk].1 as int)
                &&& all_joined(points.len(), es.take(kk + 1))
                &&& !all_joined(points.len(), es.take(kk))
            };
    let kk = choose|kk: int|
        {
            &&& 0 <= kk < es.len()
            &&& u == points[es[kk].0 as int]
            &&& v == points[es[kk].1 as int]
            &&& !joined(#[trigger] es.take(kk), es[kk].0 as int, es[kk].1 as int)
            &&& all_joined(points.len(), es.take(kk + 1))
            &&& !all_joined(points.len(), es.take(kk))
        };
    assert(es[kk].0 < es[kk].1 < points.len());
}

/// The bridging edge of at least two points, as a pair of endpoints.
pub fn build_mst(nodes: &Vec<Pos>) -> (r: (Pos, Pos))
    requires
        forall|t: int| 0 <= t < nodes@.len() ==> pos_in_bounds(#[trigger] nodes@[t]),
        nodes@.len() >= 2,
    ensures
        bridging_pin(nodes@, r.0, r.1),
{
    find_bridging_edge(nodes).unwrap()
}

proof fn lemma_sum_zero(s: Seq<usize>)
    requires
        forall|k: int| 0 <= k < s.len() ==> s[k] == 0,
    ensures
        seq_sum(s) == 0,
    decreases s.len(),
{
    if s.len() > 0 {
        lemma_sum_zero(s.drop_last());
    }
}

} // verus!
