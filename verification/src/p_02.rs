//! Invalid-identifier sums: an identifier is invalid when its decimal
//! digits are one block repeated (twice for the first part, any number of
//! times for the second), and each part sums the invalid identifiers over
//! closed ranges.
use vstd::prelude::*;

verus! {

/// A closed identifier range.
pub struct Range {
    pub start: u128,
    pub end: u128,
}

/// The decimal digits of `n`, most significant first (`0` is one digit).
pub open spec fn digits_of(n: int) -> Seq<u8>
    decreases n,
{
    if n < 10 {
        seq![n as u8]
    } else {
        digits_of(n / 10).push((n % 10) as u8)
    }
}

/// The first half of the digits equals the second half.
pub open spec fn spec_is_invalid(n: int) -> bool {
    let d = digits_of(n);
    d.len() % 2 == 0 && d.subrange(0, d.len() as int / 2) == d.subrange(
        d.len() as int / 2,
        d.len() as int,
    )
}

/// The digits repeat with period `k`, a proper divisor of the length.
pub open spec fn valid_period(d: Seq<u8>, k: int) -> bool {
    &&& 1 <= k <= d.len() as int / 2
    &&& d.len() as int % k == 0
    &&& forall|i: int| k <= i < d.len() ==> #[trigger] d[i] == d[i - k]
}

/// The digits are some block repeated at least twice.
pub open spec fn spec_is_invalid_2(n: int) -> bool {
    exists|k: int| #[trigger] valid_period(digits_of(n), k)
}

/// Appends the decimal digits of `num`, most significant first.
fn push_digits(num: u128, v: &mut Vec<u8>)
    ensures
        final(v)@ == old(v)@ + digits_of(num as int),
    decreases num,
{
    if num < 10 {
        v.push(num as u8);
        proof {
            assert(v@ =~= old(v)@ + digits_of(num as int));
        }
    } else {
        push_digits(num / 10, v);
        v.push((num % 10) as u8);
        proof {
            assert(v@ =~= old(v)@ + digits_of(num as int));
        }
    }
}

/// The decimal digits of `num`, most significant first.
fn to_digits(num: u128) -> (v: Vec<u8>)
    ensures
        v@ == digits_of(num as int),
{
    let mut v: Vec<u8> = Vec::new();
    push_digits(num, &mut v);
    proof {
        assert(Seq::<u8>::empty() + digits_of(num as int) =~= digits_of(num as int));
    }
    v
}

/// Whether `num`'s digits are one block written twice.
pub fn is_invalid(num: u128) -> (r: bool)
    ensures
        r == spec_is_invalid(num as int),
{
    let d = to_digits(num);
    let l = d.len();
    if l % 2 != 0 {
        return false;
    }
    let m = l / 2;
    let mut i: usize = 0;
    while i < m
        invariant
            i <= m,
            l == d@.len(),
            l % 2 == 0,
            m == l / 2,
            d@ == digits_of(num as int),
            forall|q: int| 0 <= q < i ==> #[trigger] d@[q] == d@[m + q],
        decreases m - i,
    {
        if d[i] != d[m + i] {
            proof {
                assert(d@.subrange(0, m as int)[i as int] != d@.subrange(m as int, l as int)[
                    i as int]);
            }
            return false;
        }
        i = i + 1;
    }
    proof {
        assert(d@.subrange(0, m as int) =~= d@.subrange(m as int, l as int));
    }
    true
}

/// Whether `num`'s digits are one block repeated at least twice.
pub fn is_invalid_2(num: u128) -> (r: bool)
    ensures
        r == spec_is_invalid_2(num as int),
{
    let d = to_digits(num);
    let l = d.len();
    let mut k: usize = 1;
    while k <= l / 2
        invariant
            1 <= k,
            l == d@.len(),
            d@ == digits_of(num as int),
            forall|q: int| 1 <= q < k ==> !valid_period(d@, q),
        decreases l / 2 + 1 - k,
    {
        if l % k == 0 {
            let mut i: usize = k;
            let mut matched = true;
            while i < l
                invariant
                    k <= i <= l,
                    1 <= k,
                    l == d@.len(),
                    matched ==> forall|q: int| k <= q < i ==> #[trigger] d@[q] == d@[q - k],
                    !matched ==> exists|q: int| k <= q < i && #[trigger] d@[q] != d@[q - k],
                decreases l - i,
            {
                if d[i] != d[i - k] {
                    matched = false;
                    proof {
                        assert(k <= i < i + 1 && d@[i as int] != d@[i - k]);
                    }
                }
                i = i + 1;
            }
            if matched {
                proof {
                    assert(valid_period(digits_of(num as int), k as int));
                }
                return true;
            }
            proof {
                let q = choose|q: int| k <= q < l && #[trigger] d@[q] != d@[q - k];
                assert(!valid_period(d@, k as int));
            }
        }
        k = k + 1;
    }
    proof {
        assert forall|q: int| !valid_period(digits_of(num as int), q) by {
            if 1 <= q <= l / 2 {
                assert(!valid_period(d@, q));
            }
        }
    }
    false
}

/// Sum of the identifiers in `[lo, hi]` that `f` accepts.
pub open spec fn sum_matching(lo: int, hi: int, f: spec_fn(int) -> bool) -> int
    decreases hi - lo + 1,
{
    if lo > hi {
        0
    } else {
        (if f(lo) {
            lo
        } else {
            0
        }) + sum_matching(lo + 1, hi, f)
    }
}

pub open spec fn pred_invalid() -> spec_fn(int) -> bool {
    |x: int| spec_is_invalid(x)
}

pub open spec fn pred_invalid_2() -> spec_fn(int) -> bool {
    |x: int| spec_is_invalid_2(x)
}

/// The sum of matching identifiers over a nonnegative range is itself
/// nonnegative.
pub proof fn lemma_sum_matching_nonneg(lo: int, hi: int, f: spec_fn(int) -> bool)
    requires
        lo >= 0,
    ensures
        sum_matching(lo, hi, f) >= 0,
    decreases hi - lo + 1,
{
    if lo <= hi {
        lemma_sum_matching_nonneg(lo + 1, hi, f);
    }
}

/// Sums the invalid identifiers (first definition) in the range.
pub fn get_invalid_ids(r: Range) -> (s: u128)
    requires
        sum_matching(r.start as int, r.end as int, pred_invalid()) <= u128::MAX,
    ensures
        s == sum_matching(r.start as int, r.end as int, pred_invalid()),
{
    sum_range_matching(r, true)
}

/// Sums the invalid identifiers (repeated-block definition) in the range.
pub fn get_invalid_ids_2(r: Range) -> (s: u128)
    requires
        sum_matching(r.start as int, r.end as int, pred_invalid_2()) <= u128::MAX,
    ensures
        s == sum_matching(r.start as int, r.end as int, pred_invalid_2()),
{
    sum_range_matching(r, false)
}

/// Shared range walk; `first_kind` selects which invalidity test applies.
fn sum_range_matching(r: Range, first_kind: bool) -> (s: u128)
    requires
        sum_matching(
            r.start as int,
            r.end as int,
            if first_kind {
                pred_invalid()
            } else {
                pred_invalid_2()
            },
        ) <= u128::MAX,
    ensures
        s == sum_matching(
            r.start as int,
            r.end as int,
            if first_kind {
                pred_invalid()
            } else {
                pred_invalid_2()
            },
        ),
{
    let ghost f = if first_kind {
        pred_invalid()
    } else {
        pred_invalid_2()
    };
    let ghost total = sum_matching(r.start as int, r.end as int, f);
    if r.start > r.end {
        return 0;
    }
    let mut sum: u128 = 0;
    let mut i: u128 = r.start;
    while i < r.end
        invariant
            r.start <= i <= r.end,
            f == (if first_kind {
                pred_invalid()
            } else {
                pred_invalid_2()
            }),
            total == sum_matching(r.start as int, r.end as int, f),
            total <= u128::MAX,
            sum + sum_matching(i as int, r.end as int, f) == total,
            sum >= 0,
        decreases r.end - i,
    {
        proof {
            lemma_sum_matching_nonneg(i as int + 1, r.end as int, f);
        }
        let hit = if first_kind {
            is_invalid(i)
        } else {
            is_invalid_2(i)
        };
        if hit {
            sum = sum + i;
        }
        i = i + 1;
    }
    proof {
        lemma_sum_matching_nonneg(i as int + 1, r.end as int, f);
    }
    let hit = if first_kind {
        is_invalid(i)
    } else {
        is_invalid_2(i)
    };
    if hit {
        sum = sum + i;
    }
    sum
}

/// Total over a list of ranges, first definition.
pub open spec fn spec_part_total(rs: Seq<Range>, f: spec_fn(int) -> bool) -> int
    decreases rs.len(),
{
    if rs.len() == 0 {
        0
    } else {
        sum_matching(rs[0].start as int, rs[0].end as int, f) + spec_part_total(rs.drop_first(), f)
    }
}

/// The per-range totals are nonnegative.
pub proof fn lemma_part_total_nonneg(rs: Seq<Range>, f: spec_fn(int) -> bool)
    ensures
        spec_part_total(rs, f) >= 0,
    decreases rs.len(),
{
    if rs.len() > 0 {
        lemma_sum_matching_nonneg(rs[0].start as int, rs[0].end as int, f);
        lemma_part_total_nonneg(rs.drop_first(), f);
    }
}

/// Sums the invalid identifiers of every range, first definition.
pub fn part1(ranges: Vec<Range>) -> (s: u128)
    requires
        spec_part_total(ranges@, pred_invalid()) <= u128::MAX,
    ensures
        s == spec_part_total(ranges@, pred_invalid()),
{
    part_sum(ranges, true)
}

/// Sums the invalid identifiers of every range, repeated-block definition.
pub fn part2(ranges: Vec<Range>) -> (s: u128)
    requires
        spec_part_total(ranges@, pred_invalid_2()) <= u128::MAX,
    ensures
        s == spec_part_total(ranges@, pred_invalid_2()),
{
    part_sum(ranges, false)
}

fn part_sum(ranges: Vec<Range>, first_kind: bool) -> (s: u128)
    requires
        spec_part_total(
            ranges@,
            if first_kind {
                pred_invalid()
            } else {
                pred_invalid_2()
            },
        ) <= u128::MAX,
    ensures
        s == spec_part_total(
            ranges@,
            if first_kind {
                pred_invalid()
            } else {
                pred_invalid_2()
            },
        ),
{
    let ghost f = if first_kind {
        pred_invalid()
    } else {
        pred_invalid_2()
    };
    let mut sum: u128 = 0;
    let mut t: usize = 0;
    proof {
        assert(ranges@.skip(0) =~= ranges@);
    }
    while t < ranges.len()
        invariant
            t <= ranges@.len(),
            f == (if first_kind {
                pred_invalid()
            } else {
                pred_invalid_2()
            }),
            spec_part_total(ranges@, f) <= u128::MAX,
            sum + spec_part_total(ranges@.skip(t as int), f) == spec_part_total(ranges@, f),
            sum >= 0,
        decreases ranges@.len() - t,
    {
        let ghost rest = ranges@.skip(t as int);
        proof {
            assert(rest[0] == ranges@[t as int]);
            assert(rest.drop_first() =~= ranges@.skip(t + 1));
            lemma_part_total_nonneg(ranges@.skip(t + 1), f);
            lemma_sum_matching_nonneg(
                ranges@[t as int].start as int,
                ranges@[t as int].end as int,
                f,
            );
        }
        let r = Range { start: ranges[t].start, end: ranges[t].end };
        let part = sum_range_matching(r, first_kind);
        sum = sum + part;
        t = t + 1;
    }
    proof {
        assert(ranges@.skip(ranges@.len() as int) =~= Seq::<Range>::empty());
    }
    sum
}

} // verus!
