//! Maximum-joltage selection: each bank is a row of decimal digits; part
//! one picks the best leading digit and the best digit after it, part two
//! greedily picks a 12-digit number left to right.
use vstd::prelude::*;

verus! {

/// The largest value in `b[lo..hi]` (0 for an empty range).
pub open spec fn range_max(b: Seq<u32>, lo: int, hi: int) -> int
    decreases hi - lo + 1,
{
    if lo >= hi {
        0
    } else {
        let rest = range_max(b, lo, hi - 1);
        if b[hi - 1] > rest {
            b[hi - 1] as int
        } else {
            rest
        }
    }
}

/// The first index in `[lo, hi)` holding `v` (0 when there is none).
pub open spec fn first_at(b: Seq<u32>, lo: int, hi: int, v: int) -> int
    decreases hi - lo + 1,
{
    if lo >= hi {
        0
    } else if b[lo] == v {
        lo
    } else {
        first_at(b, lo + 1, hi, v)
    }
}

/// Where the scan of `b[lo..hi]` leaves its best index: the first position
/// of the maximum, or 0 when the maximum is 0 (the scan never moves).
pub open spec fn max_pos(b: Seq<u32>, lo: int, hi: int) -> int {
    if range_max(b, lo, hi) == 0 {
        0
    } else {
        first_at(b, lo, hi, range_max(b, lo, hi))
    }
}

proof fn lemma_range_max_props(b: Seq<u32>, lo: int, hi: int)
    requires
        0 <= lo,
        hi <= b.len(),
    ensures
        range_max(b, lo, hi) >= 0,
        forall|q: int| lo <= q < hi ==> #[trigger] b[q] <= range_max(b, lo, hi),
        range_max(b, lo, hi) > 0 ==> exists|q: int|
            lo <= q < hi && #[trigger] b[q] == range_max(b, lo, hi),
    decreases hi - lo + 1,
{
    if lo < hi {
        lemma_range_max_props(b, lo, hi - 1);
    }
}

proof fn lemma_first_at_props(b: Seq<u32>, lo: int, hi: int, v: int)
    requires
        0 <= lo,
        hi <= b.len(),
        exists|q: int| lo <= q < hi && #[trigger] b[q] == v,
    ensures
        lo <= first_at(b, lo, hi, v) < hi,
        b[first_at(b, lo, hi, v)] == v,
        forall|q: int| lo <= q < first_at(b, lo, hi, v) ==> #[trigger] b[q] != v,
    decreases hi - lo + 1,
{
    if b[lo] == v {
    } else {
        assert(exists|q: int| lo + 1 <= q < hi && #[trigger] b[q] == v) by {
            let q0 = choose|q0: int| lo <= q0 < hi && #[trigger] b[q0] == v;
            assert(lo + 1 <= q0 < hi && b[q0] == v);
        }
        lemma_first_at_props(b, lo + 1, hi, v);
    }
}

proof fn lemma_first_at_extend(b: Seq<u32>, lo: int, hi: int, v: int)
    requires
        0 <= lo,
        hi < b.len(),
        exists|q: int| lo <= q < hi && #[trigger] b[q] == v,
    ensures
        first_at(b, lo, hi + 1, v) == first_at(b, lo, hi, v),
    decreases hi - lo + 1,
{
    if b[lo] == v {
    } else {
        assert(exists|q: int| lo + 1 <= q < hi && #[trigger] b[q] == v) by {
            let q0 = choose|q0: int| lo <= q0 < hi && #[trigger] b[q0] == v;
            assert(lo + 1 <= q0 < hi && b[q0] == v);
        }
        lemma_first_at_extend(b, lo + 1, hi, v);
    }
}

/// Scans `bank[li..ri]`: the maximum value and the first index holding
/// it (both 0 when the maximum is 0 — the scan only moves on a strict
/// increase).
pub fn find_max_digit(bank: &Vec<u32>, li: usize, ri: usize) -> (r: (u32, usize))
    requires
        ri <= bank@.len(),
    ensures
        r.0 == range_max(bank@, li as int, ri as int),
        r.1 == max_pos(bank@, li as int, ri as int),
{
    let mut new_li: usize = 0;
    let mut max_dig: u32 = 0;
    let mut b: usize = li;
    if li >= ri {
        return (0, 0);
    }
    while b < ri
        invariant
            li <= b <= ri,
            ri <= bank@.len(),
            max_dig == range_max(bank@, li as int, b as int),
            max_dig == 0 ==> new_li == 0,
            max_dig > 0 ==> new_li == first_at(bank@, li as int, b as int, max_dig as int),
        decreases ri - b,
    {
        proof {
            lemma_range_max_props(bank@, li as int, b as int);
        }
        if max_dig < bank[b] {
            proof {
                let v = bank@[b as int] as int;
                assert(exists|q: int|
                    li <= q < b + 1 && #[trigger] bank@[q] == v) by {
                    assert(bank@[b as int] == v);
                }
                lemma_first_at_props(bank@, li as int, b + 1, v);
                assert(first_at(bank@, li as int, b + 1, v) == b as int) by {
                    let fa = first_at(bank@, li as int, b + 1, v);
                    if fa < b {
                        assert(bank@[fa] <= range_max(bank@, li as int, b as int));
                    }
                }
            }
            max_dig = bank[b];
            new_li = b;
        } else {
            proof {
                if max_dig > 0 {
                    lemma_first_at_extend(bank@, li as int, b as int, max_dig as int);
                }
            }
        }
        b = b + 1;
    }
    (max_dig, new_li)
}

/// Part-one joltage of one bank: best digit among all but the last
/// position, times ten, plus the best digit after that position.
pub open spec fn spec_max_joltage(b: Seq<u32>) -> int {
    let lmax = range_max(b, 0, b.len() - 1);
    let li = max_pos(b, 0, b.len() - 1);
    let rmax = range_max(b, li + 1, b.len() as int);
    lmax * 10 + rmax
}

/// Digits are at most 9.
pub open spec fn all_digits(b: Seq<u32>) -> bool {
    forall|q: int| 0 <= q < b.len() ==> #[trigger] b[q] <= 9
}

proof fn lemma_range_max_digit(b: Seq<u32>, lo: int, hi: int)
    requires
        0 <= lo,
        hi <= b.len(),
        all_digits(b),
    ensures
        0 <= range_max(b, lo, hi) <= 9,
{
    lemma_range_max_props(b, lo, hi);
    if range_max(b, lo, hi) > 0 {
        let q = choose|q: int| lo <= q < hi && #[trigger] b[q] == range_max(b, lo, hi);
        assert(b[q] <= 9);
    }
}

/// The two-digit joltage of one bank.
pub fn get_max_joltage(bank: Vec<u32>) -> (r: u32)
    requires
        bank@.len() >= 1,
        all_digits(bank@),
    ensures
        r == spec_max_joltage(bank@),
{
    let n = bank.len();
    let (lmax, li) = find_max_digit(&bank, 0, n - 1);
    let mut rmax: u32 = 0;
    proof {
        lemma_range_max_digit(bank@, 0, n - 1);
        lemma_range_max_props(bank@, 0, n - 1);
        if lmax > 0 {
            lemma_first_at_props(bank@, 0, n - 1, lmax as int);
        }
        assert(li + 1 <= n);
    }
    let mut b: usize = li + 1;
    while b < n
        invariant
            li + 1 <= b <= n,
            n == bank@.len(),
            all_digits(bank@),
            rmax == range_max(bank@, li + 1, b as int),
            rmax <= 9,
        decreases n - b,
    {
        proof {
            lemma_range_max_digit(bank@, li + 1, b + 1);
        }
        if rmax < bank[b] {
            rmax = bank[b];
        }
        b = b + 1;
    }
    proof {
        lemma_range_max_digit(bank@, 0, n - 1);
    }
    lmax * 10 + rmax
}

/// Sum of the two-digit joltages of all banks.
pub open spec fn spec_joltage_sum(bs: Seq<Vec<u32>>) -> int
    decreases bs.len(),
{
    if bs.len() == 0 {
        0
    } else {
        spec_max_joltage(bs[0]@) + spec_joltage_sum(bs.drop_first())
    }
}

/// Every bank is non-empty and all digits.
pub open spec fn banks_wf(bs: Seq<Vec<u32>>) -> bool {
    forall|t: int| 0 <= t < bs.len() ==> (#[trigger] bs[t])@.len() >= 1 && all_digits(bs[t]@)
}

proof fn lemma_joltage_bound(b: Seq<u32>)
    requires
        b.len() >= 1,
        all_digits(b),
    ensures
        0 <= spec_max_joltage(b) <= 99,
{
    lemma_range_max_digit(b, 0, b.len() - 1);
    lemma_range_max_props(b, 0, b.len() - 1);
    if range_max(b, 0, b.len() - 1) > 0 {
        lemma_first_at_props(b, 0, b.len() - 1, range_max(b, 0, b.len() - 1));
    }
    lemma_range_max_digit(b, max_pos(b, 0, b.len() - 1) + 1, b.len() as int);
}

/// Part one: the total two-digit joltage over all banks.
pub fn pr_1(banks: Vec<Vec<u32>>) -> (r: u64)
    requires
        banks_wf(banks@),
        banks@.len() <= 100_000_000_000_000_000,
    ensures
        r == spec_joltage_sum(banks@),
{
    let ghost banks0 = banks@;
    let mut banks = banks;
    let mut sum: u64 = 0;
    proof {
        assert(banks0.skip(banks0.len() as int) =~= Seq::<Vec<u32>>::empty());
    }
    while banks.len() > 0
        invariant
            banks@ == banks0.take(banks@.len() as int),
            banks_wf(banks0),
            banks0.len() <= 100_000_000_000_000_000,
            sum <= 99 * (banks0.len() - banks@.len()),
            sum + 0 == spec_joltage_sum(banks0.skip(banks@.len() as int)),
        decreases banks@.len(),
    {
        let ghost cur = banks@.len() as int;
        let ghost rest = banks0.skip(cur - 1);
        proof {
            assert(rest[0] == banks0[cur - 1]);
            assert(rest.drop_first() =~= banks0.skip(cur));
            assert(banks@[cur - 1] == banks0[cur - 1]);
            lemma_joltage_bound(banks0[cur - 1]@);
            lemma_joltage_sum_nonneg(banks0.skip(cur));
        }
        let bank = banks.pop().unwrap();
        proof {
            assert(banks@ =~= banks0.take(banks@.len() as int));
        }
        let j = get_max_joltage(bank);
        sum = sum + j as u64;
    }
    proof {
        assert(banks0.skip(0) =~= banks0);
    }
    sum
}

proof fn lemma_joltage_sum_nonneg(bs: Seq<Vec<u32>>)
    requires
        forall|t: int| 0 <= t < bs.len() ==> (#[trigger] bs[t])@.len() >= 1 && all_digits(bs[t]@),
    ensures
        spec_joltage_sum(bs) >= 0,
    decreases bs.len(),
{
    if bs.len() > 0 {
        lemma_joltage_bound(bs[0]@);
        lemma_joltage_sum_nonneg(bs.drop_first());
    }
}

/// Ten to the `e`.
pub open spec fn pow10(e: int) -> int
    decreases e,
{
    if e <= 0 {
        1
    } else {
        10 * pow10(e - 1)
    }
}

proof fn lemma_pow10_pos(e: int)
    ensures
        pow10(e) >= 1,
    decreases e,
{
    if e > 0 {
        lemma_pow10_pos(e - 1);
    }
}

/// The greedy pick of `r` more digits from `b[li..]`, leaving room for
/// the digits still to come: the value of the 12-digit number built left
/// to right.
pub open spec fn greedy_joltage(b: Seq<u32>, li: int, r: int) -> int
    decreases r,
{
    if r <= 0 {
        0
    } else {
        let ri = b.len() - (r - 1);
        let m = range_max(b, li, ri);
        let idx = max_pos(b, li, ri);
        m * pow10(r - 1) + greedy_joltage(b, idx + 1, r - 1)
    }
}

proof fn lemma_greedy_bound(b: Seq<u32>, li: int, r: int)
    requires
        all_digits(b),
        li >= 0,
    ensures
        0 <= greedy_joltage(b, li, r) <= pow10(r) - 1,
    decreases r,
{
    if r > 0 {
        let ri = b.len() - (r - 1);
        lemma_range_max_digit(b, li, ri);
        let m = range_max(b, li, ri);
        let idx = max_pos(b, li, ri);
        lemma_max_pos_nonneg(b, li, ri);
        lemma_greedy_bound(b, idx + 1, r - 1);
        lemma_pow10_pos(r - 1);
        assert(m * pow10(r - 1) <= 9 * pow10(r - 1)) by (nonlinear_arith)
            requires
                0 <= m <= 9,
                pow10(r - 1) >= 1,
        ;
        assert(m * pow10(r - 1) >= 0) by (nonlinear_arith)
            requires
                0 <= m,
                pow10(r - 1) >= 1,
        ;
    }
}

proof fn lemma_max_pos_nonneg(b: Seq<u32>, lo: int, hi: int)
    requires
        lo >= 0,
    ensures
        max_pos(b, lo, hi) >= 0,
{
    if range_max(b, lo, hi) != 0 {
        lemma_first_at_nonneg(b, lo, hi, range_max(b, lo, hi));
    }
}

proof fn lemma_first_at_nonneg(b: Seq<u32>, lo: int, hi: int, v: int)
    requires
        lo >= 0,
    ensures
        first_at(b, lo, hi, v) >= 0,
    decreases hi - lo + 1,
{
    if lo < hi && b[lo] != v {
        lemma_first_at_nonneg(b, lo + 1, hi, v);
    }
}

proof fn lemma_pow10_mono(a: int, b: int)
    requires
        a <= b,
    ensures
        pow10(a) <= pow10(b),
    decreases b - a,
{
    lemma_pow10_pos(a);
    if a < b {
        lemma_pow10_mono(a, b - 1);
        lemma_pow10_pos(b - 1);
    }
}

/// The greedy 12-digit joltage of one bank.
pub fn get_max_joltage_2(bank: Vec<u32>) -> (r: u128)
    requires
        bank@.len() >= 12,
        all_digits(bank@),
    ensures
        r == greedy_joltage(bank@, 0, 12),
{
    let n = bank.len();
    let mut max_joltage: u128 = 0;
    let mut li: usize = 0;
    let mut rr: usize = 12;
    proof {
        lemma_greedy_bound(bank@, 0, 12);
        reveal_with_fuel(pow10, 14);
        assert(pow10(12) == 1_000_000_000_000);
    }
    while rr > 0
        invariant
            rr <= 12,
            n == bank@.len(),
            n >= 12,
            li <= n,
            all_digits(bank@),
            max_joltage + greedy_joltage(bank@, li as int, rr as int) == greedy_joltage(
                bank@,
                0,
                12,
            ),
            greedy_joltage(bank@, 0, 12) < 1_000_000_000_000,
        decreases rr,
    {
        let ri = n - (rr - 1);
        let (d, idx) = find_max_digit(&bank, li, ri);
        let mut p: u128 = 1;
        let mut e: usize = 0;
        proof {
            reveal_with_fuel(pow10, 14);
            assert(pow10(11) == 100_000_000_000);
        }
        while e < rr - 1
            invariant
                e <= rr - 1,
                rr <= 12,
                p == pow10(e as int),
                p <= 100_000_000_000,
            decreases rr - 1 - e,
        {
            proof {
                lemma_pow10_mono(e + 1, 11);
                reveal_with_fuel(pow10, 14);
                assert(pow10(11) == 100_000_000_000);
            }
            p = p * 10;
            e = e + 1;
        }
        proof {
            lemma_range_max_digit(bank@, li as int, ri as int);
            lemma_greedy_bound(bank@, li as int, rr as int);
            assert(greedy_joltage(bank@, li as int, rr as int) == range_max(
                bank@,
                li as int,
                ri as int,
            ) * pow10(rr - 1) + greedy_joltage(bank@, max_pos(bank@, li as int, ri as int) + 1, rr - 1));
            lemma_greedy_bound(bank@, max_pos(bank@, li as int, ri as int) + 1, rr - 1);
            lemma_max_pos_nonneg(bank@, li as int, ri as int);
            lemma_range_max_props(bank@, li as int, ri as int);
            if d > 0 {
                lemma_first_at_props(bank@, li as int, ri as int, d as int);
            }
        }
        max_joltage = max_joltage + (d as u128) * p;
        li = idx + 1;
        rr = rr - 1;
    }
    max_joltage
}

/// Sum of the greedy 12-digit joltages of all banks.
pub open spec fn spec_joltage2_sum(bs: Seq<Vec<u32>>) -> int
    decreases bs.len(),
{
    if bs.len() == 0 {
        0
    } else {
        greedy_joltage(bs[0]@, 0, 12) + spec_joltage2_sum(bs.drop_first())
    }
}

/// Every bank has at least twelve digits.
pub open spec fn banks_wf_2(bs: Seq<Vec<u32>>) -> bool {
    forall|t: int| 0 <= t < bs.len() ==> (#[trigger] bs[t])@.len() >= 12 && all_digits(bs[t]@)
}

proof fn lemma_joltage2_sum_nonneg(bs: Seq<Vec<u32>>)
    requires
        banks_wf_2(bs),
    ensures
        spec_joltage2_sum(bs) >= 0,
    decreases bs.len(),
{
    if bs.len() > 0 {
        lemma_greedy_bound(bs[0]@, 0, 12);
        lemma_joltage2_sum_nonneg(bs.drop_first());
    }
}

/// Part two: the total greedy joltage over all banks.
pub fn pr_2(banks: Vec<Vec<u32>>) -> (r: u128)
    requires
        banks_wf_2(banks@),
    ensures
        r == spec_joltage2_sum(banks@),
{
    let ghost banks0 = banks@;
    let mut banks = banks;
    let n0 = banks.len();
    let mut sum: u128 = 0;
    proof {
        assert(banks0.skip(banks0.len() as int) =~= Seq::<Vec<u32>>::empty());
        reveal_with_fuel(pow10, 14);
        assert(pow10(12) == 1_000_000_000_000);
    }
    while banks.len() > 0
        invariant
            banks@ == banks0.take(banks@.len() as int),
            banks0.len() == n0,
            banks_wf_2(banks0),
            sum <= 1_000_000_000_000 * (banks0.len() - banks@.len()),
            sum + 0 == spec_joltage2_sum(banks0.skip(banks@.len() as int)),
        decreases banks@.len(),
    {
        let ghost cur = banks@.len() as int;
        let ghost rest = banks0.skip(cur - 1);
        proof {
            assert(rest[0] == banks0[cur - 1]);
            assert(rest.drop_first() =~= banks0.skip(cur));
            assert(banks@[cur - 1] == banks0[cur - 1]);
            lemma_greedy_bound(banks0[cur - 1]@, 0, 12);
            reveal_with_fuel(pow10, 14);
            assert(pow10(12) == 1_000_000_000_000);
            assert(banks0.len() <= 0xFFFF_FFFF_FFFF_FFFFu64) by {
                assert(n0 <= usize::MAX);
            }
            assert(1_000_000_000_000 * (banks0.len() - cur + 1) <= u128::MAX) by (nonlinear_arith)
                requires
                    0 < cur <= banks0.len() <= 0xFFFF_FFFF_FFFF_FFFFu64,
            ;
        }
        let bank = banks.pop().unwrap();
        proof {
            assert(banks@ =~= banks0.take(banks@.len() as int));
        }
        let j = get_max_joltage_2(bank);
        sum = sum + j;
    }
    proof {
        assert(banks0.skip(0) =~= banks0);
    }
    sum
}

} // verus!
