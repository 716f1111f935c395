//! Fresh-ingredient ranges: merge overlapping closed `u64` ranges, test
//! identifiers by binary search, and count the distinct covered
//! identifiers.
use vstd::prelude::*;

verus! {

/// `x` lies in one of the closed ranges.
pub open spec fn covered(x: int, rs: Seq<[u64; 2]>) -> bool {
    exists|i: int| 0 <= i < rs.len() && (#[trigger] rs[i])[0] <= x <= rs[i][1]
}

/// Every range is non-empty (start at most end).
pub open spec fn ranges_wf(rs: Seq<[u64; 2]>) -> bool {
    forall|i: int| 0 <= i < rs.len() ==> (#[trigger] rs[i])[0] <= rs[i][1]
}

/// Non-empty ranges, strictly separated and in increasing order.
pub open spec fn separated(rs: Seq<[u64; 2]>) -> bool {
    &&& ranges_wf(rs)
    &&& forall|i: int| 0 <= i < rs.len() - 1 ==> (#[trigger] rs[i])[1] < rs[i + 1][0]
}

/// Sorted by start, then end.
pub open spec fn range_le(a: [u64; 2], b: [u64; 2]) -> bool {
    a[0] < b[0] || (a[0] == b[0] && a[1] <= b[1])
}

proof fn lemma_separated_ends(rs: Seq<[u64; 2]>, i: int, j: int)
    requires
        separated(rs),
        0 <= i <= j < rs.len(),
    ensures
        rs[i][1] <= rs[j][1],
        rs[i][0] <= rs[j][1],
    decreases j - i,
{
    if i < j {
        lemma_separated_ends(rs, i + 1, j);
    }
}

/// Sorts ranges by `(start, end)` by repeated insertion.
fn sort_ranges(rs: &Vec<[u64; 2]>) -> (out: Vec<[u64; 2]>)
    ensures
        out@.to_multiset() == rs@.to_multiset(),
        forall|m1: int, m2: int|
            0 <= m1 < m2 < out@.len() ==> range_le(#[trigger] out@[m1], #[trigger] out@[m2]),
        out@.len() == rs@.len(),
{
    let mut out: Vec<[u64; 2]> = Vec::new();
    let mut t: usize = 0;
    proof {
        assert(rs@.take(0) =~= Seq::<[u64; 2]>::empty());
        assert(out@.to_multiset() =~= rs@.take(0).to_multiset());
    }
    while t < rs.len()
        invariant
            t <= rs@.len(),
            out@.len() == t as int,
            out@.to_multiset() == rs@.take(t as int).to_multiset(),
            forall|m1: int, m2: int|
                0 <= m1 < m2 < out@.len() ==> range_le(#[trigger] out@[m1], #[trigger] out@[m2]),
        decreases rs@.len() - t,
    {
        let e = rs[t];
        let ghost out0 = out@;
        let mut pos: usize = 0;
        while pos < out.len() && (out[pos][0] < e[0] || (out[pos][0] == e[0] && out[pos][1] <= e[1]))
            invariant
                pos <= out@.len(),
                out@ == out0,
                forall|q: int| 0 <= q < pos ==> range_le(#[trigger] out@[q], e),
            decreases out@.len() - pos,
        {
            pos = pos + 1;
        }
        out.insert(pos, e);
        proof {
            broadcast use vstd::seq_lib::to_multiset_insert;
            broadcast use vstd::seq_lib::to_multiset_build;

            assert(rs@.take(t + 1) =~= rs@.take(t as int).push(e));
            assert(out@ == out0.insert(pos as int, e));
            assert(out@.to_multiset() =~= rs@.take(t + 1).to_multiset());
            assert forall|m1: int, m2: int|
                0 <= m1 < m2 < out@.len() implies range_le(
                #[trigger] out@[m1],
                #[trigger] out@[m2],
            ) by {
                if m2 < pos {
                } else if m1 < pos && m2 == pos {
                } else if m1 < pos {
                    assert(range_le(out0[m1], out0[m2 - 1]));
                } else if m1 == pos {
                    if m2 > pos + 1 {
                        assert(range_le(out0[pos as int], out0[m2 - 1]));
                    }
                } else {
                    assert(range_le(out0[m1 - 1], out0[m2 - 1]));
                }
            }
        }
        t = t + 1;
    }
    proof {
        assert(rs@.take(rs@.len() as int) =~= rs@);
    }
    out
}

/// Merges overlapping (or touching) ranges into a separated, sorted list
/// that covers exactly the same identifiers.
pub fn merge_overlapping_intervals(ranges: Vec<[u64; 2]>) -> (merged: Vec<[u64; 2]>)
    requires
        ranges_wf(ranges@),
    ensures
        separated(merged@),
        forall|x: int| #[trigger] covered(x, merged@) <==> covered(x, ranges@),
{
    let sorted = sort_ranges(&ranges);
    proof {
        broadcast use vstd::seq_lib::group_to_multiset_ensures;

        assert forall|x: int| #[trigger] covered(x, sorted@) <==> covered(x, ranges@) by {
            lemma_covered_multiset(sorted@, ranges@, x);
        }
        assert(ranges_wf(sorted@)) by {
            assert forall|i: int|
                0 <= i < sorted@.len() implies (#[trigger] sorted@[i])[0] <= sorted@[i][1] by {
                assert(sorted@.contains(sorted@[i]));
                assert(sorted@.to_multiset().count(sorted@[i]) > 0);
                assert(ranges@.to_multiset().count(sorted@[i]) > 0);
                assert(ranges@.contains(sorted@[i]));
                let j = choose|j: int| 0 <= j < ranges@.len() && ranges@[j] == sorted@[i];
                assert((#[trigger] ranges@[j])[0] <= ranges@[j][1]);
            }
        }
    }
    let mut merged: Vec<[u64; 2]> = Vec::new();
    let mut t: usize = 0;
    while t < sorted.len()
        invariant
            t <= sorted@.len(),
            ranges_wf(sorted@),
            forall|m1: int, m2: int|
                0 <= m1 < m2 < sorted@.len() ==> range_le(
                    #[trigger] sorted@[m1],
                    #[trigger] sorted@[m2],
                ),
            separated(merged@),
            forall|x: int| #[trigger] covered(x, merged@) <==> covered(x, sorted@.take(t as int)),
            merged@.len() > 0 && t < sorted@.len() ==> merged@.last()[0] <= sorted@[t as int][0],
        decreases sorted@.len() - t,
    {
        let r = sorted[t];
        let ghost merged0 = merged@;
        let ml = merged.len();
        let mut absorbed = false;
        if ml > 0 {
            let last = merged[ml - 1];
            if r[0] <= last[1] {
                let new_end = if last[1] < r[1] {
                    r[1]
                } else {
                    last[1]
                };
                merged.set(ml - 1, [last[0], new_end]);
                absorbed = true;
                proof {
                    assert forall|x: int| #[trigger]
                        covered(x, merged@) <==> covered(x, sorted@.take(t + 1)) by {
                        assert(sorted@.take(t + 1) =~= sorted@.take(t as int).push(r));
                        lemma_covered_push(sorted@.take(t as int), r, x);
                        lemma_covered_update_end(merged0, merged@, r, x);
                    }
                }
            }
        }
        if !absorbed {
            merged.push(r);
            proof {
                assert forall|x: int| #[trigger]
                    covered(x, merged@) <==> covered(x, sorted@.take(t + 1)) by {
                    assert(sorted@.take(t + 1) =~= sorted@.take(t as int).push(r));
                    lemma_covered_push(sorted@.take(t as int), r, x);
                    lemma_covered_push(merged0, r, x);
                }
                assert(separated(merged@)) by {
                    if merged0.len() > 0 {
                        assert(merged0.last()[1] < r[0]);
                    }
                }
            }
        }
        proof {
            if t + 1 < sorted@.len() {
                assert(range_le(sorted@[t as int], sorted@[t + 1]));
            }
        }
        t = t + 1;
    }
    proof {
        assert(sorted@.take(sorted@.len() as int) =~= sorted@);
    }
    merged
}

/// Coverage only depends on which ranges are present.
proof fn lemma_covered_multiset(a: Seq<[u64; 2]>, b: Seq<[u64; 2]>, x: int)
    requires
        a.to_multiset() == b.to_multiset(),
    ensures
        covered(x, a) <==> covered(x, b),
{
    broadcast use vstd::seq_lib::group_to_multiset_ensures;

    if covered(x, a) {
        let i = choose|i: int| 0 <= i < a.len() && (#[trigger] a[i])[0] <= x <= a[i][1];
        assert(a.contains(a[i]));
        assert(a.to_multiset().count(a[i]) > 0);
        assert(b.to_multiset().count(a[i]) > 0);
        assert(b.contains(a[i]));
        let j = choose|j: int| 0 <= j < b.len() && b[j] == a[i];
        assert((#[trigger] b[j])[0] <= x <= b[j][1]);
    }
    if covered(x, b) {
        let i = choose|i: int| 0 <= i < b.len() && (#[trigger] b[i])[0] <= x <= b[i][1];
        assert(b.contains(b[i]));
        assert(b.to_multiset().count(b[i]) > 0);
        assert(a.to_multiset().count(b[i]) > 0);
        assert(a.contains(b[i]));
        let j = choose|j: int| 0 <= j < a.len() && a[j] == b[i];
        assert((#[trigger] a[j])[0] <= x <= a[j][1]);
    }
}

proof fn lemma_covered_push(s: Seq<[u64; 2]>, r: [u64; 2], x: int)
    ensures
        covered(x, s.push(r)) <==> (covered(x, s) || (r[0] <= x <= r[1])),
{
    if covered(x, s) {
        let i = choose|i: int| 0 <= i < s.len() && (#[trigger] s[i])[0] <= x <= s[i][1];
        assert(s.push(r)[i] == s[i]);
    }
    if r[0] <= x <= r[1] {
        assert(s.push(r)[s.len() as int] == r);
    }
    if covered(x, s.push(r)) {
        let i = choose|i: int|
            0 <= i < s.push(r).len() && (#[trigger] s.push(r)[i])[0] <= x <= s.push(r)[i][1];
        if i < s.len() {
            assert(s[i] == s.push(r)[i]);
        }
    }
}

/// Widening the last range's end to absorb `r` covers exactly the old
/// coverage plus `r`, given that `r` starts inside or just after the last
/// range and does not start before it.
proof fn lemma_covered_update_end(
    before: Seq<[u64; 2]>,
    after: Seq<[u64; 2]>,
    r: [u64; 2],
    x: int,
)
    requires
        before.len() > 0,
        after == before.update(
            before.len() - 1,
            [before.last()[0], (if before.last()[1] < r[1] {
                r[1]
            } else {
                before.last()[1]
            })],
        ),
        before.last()[0] <= r[0] <= before.last()[1],
        r[0] <= r[1],
    ensures
        covered(x, after) <==> (covered(x, before) || (r[0] <= x <= r[1])),
{
    let k = before.len() - 1;
    let new_end = if before.last()[1] < r[1] {
        r[1] as int
    } else {
        before.last()[1] as int
    };
    if covered(x, before) {
        let i = choose|i: int| 0 <= i < before.len() && (#[trigger] before[i])[0] <= x <= before[i][1];
        assert(after[i][0] <= x <= after[i][1]);
    }
    if r[0] <= x <= r[1] {
        assert(after[k][0] <= x <= after[k][1]);
    }
    if covered(x, after) {
        let i = choose|i: int| 0 <= i < after.len() && (#[trigger] after[i])[0] <= x <= after[i][1];
        if i < k {
            assert(before[i][0] <= x <= before[i][1]);
        } else {
            if x <= before.last()[1] {
                assert(before[k][0] <= x <= before[k][1]);
            } else {
                assert(r[0] <= x <= r[1]);
            }
        }
    }
}

/// Whether `id` lies in one of the separated ranges, by binary search.
pub fn binary_search_ranges(merged: &Vec<[u64; 2]>, id: u64) -> (r: bool)
    requires
        separated(merged@),
    ensures
        r == covered(id as int, merged@),
{
    let mut lo: usize = 0;
    let mut hi: usize = merged.len();
    while lo < hi
        invariant
            lo <= hi <= merged@.len(),
            separated(merged@),
            forall|m: int| 0 <= m < lo ==> (#[trigger] merged@[m])[1] < id,
            forall|m: int| hi <= m < merged@.len() ==> (#[trigger] merged@[m])[0] > id,
        decreases hi - lo,
    {
        let mid = lo + (hi - lo) / 2;
        let range = merged[mid];
        if id < range[0] {
            proof {
                assert forall|m: int|
                    mid <= m < merged@.len() implies (#[trigger] merged@[m])[0] > id by {
                    if m > mid {
                        lemma_separated_ends(merged@, mid as int, m - 1);
                        assert(merged@[m - 1][1] < merged@[m][0]);
                    }
                }
            }
            hi = mid;
        } else if id > range[1] {
            proof {
                assert forall|m: int| 0 <= m <= mid implies (#[trigger] merged@[m])[1] < id by {
                    if m < mid {
                        lemma_separated_ends(merged@, m, mid as int);
                    }
                }
            }
            lo = mid + 1;
        } else {
            proof {
                assert(merged@[mid as int][0] <= id as int <= merged@[mid as int][1]);
            }
            return true;
        }
    }
    proof {
        if covered(id as int, merged@) {
            let i = choose|i: int|
                0 <= i < merged@.len() && (#[trigger] merged@[i])[0] <= id as int <= merged@[i][1];
            assert(!(i < lo) && !(i >= hi));
        }
    }
    false
}

/// How many of `ids` are covered by the ranges.
pub open spec fn spec_count_covered(ids: Seq<u64>, rs: Seq<[u64; 2]>) -> int
    decreases ids.len(),
{
    if ids.len() == 0 {
        0
    } else {
        (if covered(ids[0] as int, rs) {
            1int
        } else {
            0int
        }) + spec_count_covered(ids.drop_first(), rs)
    }
}

/// Counts the identifiers that lie in some range.
pub fn part1(ranges: Vec<[u64; 2]>, ids: Vec<u64>) -> (count: u64)
    requires
        ranges_wf(ranges@),
        ids@.len() <= u64::MAX,
    ensures
        count == spec_count_covered(ids@, ranges@),
{
    let merged = merge_overlapping_intervals(ranges);
    let ghost ranges_v = ranges@;
    let mut count: u64 = 0;
    let mut t: usize = 0;
    proof {
        assert(ids@.skip(0) =~= ids@);
    }
    while t < ids.len()
        invariant
            t <= ids@.len(),
            ids@.len() <= u64::MAX,
            separated(merged@),
            forall|x: int| #[trigger] covered(x, merged@) <==> covered(x, ranges_v),
            count <= t,
            count + spec_count_covered(ids@.skip(t as int), ranges_v) == spec_count_covered(
                ids@,
                ranges_v,
            ),
        decreases ids@.len() - t,
    {
        let ghost rest = ids@.skip(t as int);
        proof {
            assert(rest[0] == ids@[t as int]);
            assert(rest.drop_first() =~= ids@.skip(t + 1));
        }
        if binary_search_ranges(&merged, ids[t]) {
            count = count + 1;
        }
        t = t + 1;
    }
    proof {
        assert(ids@.skip(ids@.len() as int) =~= Seq::<u64>::empty());
    }
    count
}

/// The set of identifiers covered by the ranges.
pub open spec fn covered_set(rs: Seq<[u64; 2]>) -> Set<int> {
    Set::new(|x: int| covered(x, rs))
}

proof fn lemma_disjoint_union_len_p5(a: Set<int>, b: Set<int>)
    requires
        a.finite(),
        b.finite(),
        a.disjoint(b),
    ensures
        (a + b).len() == a.len() + b.len(),
    decreases b.len(),
{
    if b.len() == 0 {
        b.lemma_len0_is_empty();
        assert(a + b =~= a);
    } else {
        if b.is_empty() {
            assert(b =~= Set::empty());
            assert(false);
        }
        let x = b.choose();
        assert(b.contains(x));
        lemma_disjoint_union_len_p5(a, b.remove(x));
        assert(a + b =~= (a + b.remove(x)).insert(x));
        assert(!(a + b.remove(x)).contains(x));
    }
}

/// The identifiers covered by a separated prefix form a finite set whose
/// size is the sum of the range widths.
proof fn lemma_prefix_covered(rs: Seq<[u64; 2]>, m: int)
    requires
        separated(rs),
        0 <= m < rs.len(),
    ensures
        covered_set(rs.take(m + 1)) =~= covered_set(rs.take(m)) + vstd::set_lib::set_int_range(
            rs[m][0] as int,
            rs[m][1] + 1,
        ),
        covered_set(rs.take(m)).disjoint(
            vstd::set_lib::set_int_range(rs[m][0] as int, rs[m][1] + 1),
        ),
{
    let r = rs[m];
    assert(rs.take(m + 1) =~= rs.take(m).push(r));
    assert forall|x: int|
        covered(x, rs.take(m + 1)) <==> (covered(x, rs.take(m)) || (r[0] <= x <= r[1])) by {
        lemma_covered_push(rs.take(m), r, x);
    }
    assert forall|x: int| covered(x, rs.take(m)) implies !(r[0] <= x <= r[1]) by {
        let i = choose|i: int|
            0 <= i < rs.take(m).len() && (#[trigger] rs.take(m)[i])[0] <= x <= rs.take(m)[i][1];
        lemma_separated_ends(rs, i, m - 1);
        assert(rs[m - 1][1] < rs[m][0]);
    }
}

proof fn lemma_prefix_covered_finite(rs: Seq<[u64; 2]>, m: int)
    requires
        separated(rs),
        0 <= m <= rs.len(),
    ensures
        covered_set(rs.take(m)).finite(),
    decreases m,
{
    if m == 0 {
        assert(covered_set(rs.take(0)) =~= Set::<int>::empty()) by {
            assert forall|x: int| !covered(x, rs.take(0)) by {}
        }
    } else {
        lemma_prefix_covered_finite(rs, m - 1);
        lemma_prefix_covered(rs, m - 1);
        vstd::set_lib::lemma_int_range(rs[m - 1][0] as int, rs[m - 1][1] + 1);
    }
}

/// Counts the distinct covered identifiers: the size of the union of the
/// ranges, computed as the total width of the merged ranges.
pub fn part_2(ranges: Vec<[u64; 2]>) -> (total: u64)
    requires
        ranges_wf(ranges@),
        covered_set(ranges@).len() <= u64::MAX,
    ensures
        total == covered_set(ranges@).len(),
{
    let ghost ranges_v = ranges@;
    let merged = merge_overlapping_intervals(ranges);
    proof {
        assert(covered_set(merged@) =~= covered_set(ranges_v));
        assert(merged@.take(merged@.len() as int) =~= merged@);
        lemma_prefix_covered_finite(merged@, merged@.len() as int);
    }
    let mut total: u64 = 0;
    let mut m: usize = 0;
    proof {
        assert(covered_set(merged@.take(0)) =~= Set::<int>::empty()) by {
            assert forall|x: int| !covered(x, merged@.take(0)) by {}
        }
    }
    while m < merged.len()
        invariant
            m <= merged@.len(),
            separated(merged@),
            covered_set(merged@) == covered_set(ranges_v),
            covered_set(ranges_v).len() <= u64::MAX,
            covered_set(merged@).finite(),
            covered_set(merged@.take(m as int)).finite(),
            total == covered_set(merged@.take(m as int)).len(),
        decreases merged@.len() - m,
    {
        let r = merged[m];
        proof {
            lemma_prefix_covered(merged@, m as int);
            lemma_prefix_covered_finite(merged@, m as int);
            vstd::set_lib::lemma_int_range(r[0] as int, r[1] + 1);
            lemma_disjoint_union_len_p5(
                covered_set(merged@.take(m as int)),
                vstd::set_lib::set_int_range(r[0] as int, r[1] + 1),
            );
            assert(covered_set(merged@.take(m + 1)).len() == total + (r[1] - r[0] + 1));
            assert(covered_set(merged@.take(m + 1)).subset_of(covered_set(merged@))) by {
                assert forall|x: int|
                    covered(x, merged@.take(m + 1)) implies covered(x, merged@) by {
                    let i = choose|i: int|
                        0 <= i < merged@.take(m + 1).len() && (#[trigger] merged@.take(m + 1)[i])[0]
                            <= x <= merged@.take(m + 1)[i][1];
                    assert((merged@[i])[0] <= x <= merged@[i][1]);
                }
            }
            vstd::set_lib::lemma_len_subset(
                covered_set(merged@.take(m + 1)),
                covered_set(merged@),
            );
        }
        total = total + (r[1] - r[0] + 1);
        m = m + 1;
    }
    proof {
        assert(merged@.take(merged@.len() as int) =~= merged@);
    }
    total
}

} // verus!
