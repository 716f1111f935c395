//! The invalid-identifier sums again, with the range walk written once
//! and the invalidity test passed in as a function value.
use crate::p_02::{
    pred_invalid, pred_invalid_2, spec_is_invalid, spec_is_invalid_2, spec_part_total,
    sum_matching, Range,
};
use vstd::prelude::*;

verus! {

/// The block-written-twice test; the digit machinery is shared with the
/// sibling module.
pub fn is_invalid(num: u128) -> (r: bool)
    ensures
        r == spec_is_invalid(num as int),
{
    crate::p_02::is_invalid(num)
}

/// The repeated-block test.
pub fn is_invalid_2(num: u128) -> (r: bool)
    ensures
        r == spec_is_invalid_2(num as int),
{
    crate::p_02::is_invalid_2(num)
}

/// Sums the identifiers in the closed range that `predicate` accepts.
/// The ghost predicate `p` pins what `predicate` computes.
pub fn invalid_sum<F: Fn(u128) -> bool>(
    range: Range,
    predicate: F,
    Ghost(p): Ghost<spec_fn(int) -> bool>,
) -> (s: u128)
    requires
        forall|x: u128| #[trigger] call_requires(predicate, (x,)),
        forall|x: u128, r: bool| #[trigger] call_ensures(predicate, (x,), r) ==> r == p(x as int),
        sum_matching(range.start as int, range.end as int, p) <= u128::MAX,
    ensures
        s == sum_matching(range.start as int, range.end as int, p),
{
    let ghost total = sum_matching(range.start as int, range.end as int, p);
    if range.start > range.end {
        return 0;
    }
    let mut sum: u128 = 0;
    let mut i: u128 = range.start;
    while i < range.end
        invariant
            range.start <= i <= range.end,
            forall|x: u128| #[trigger] call_requires(predicate, (x,)),
            forall|x: u128, r: bool|
                #[trigger] call_ensures(predicate, (x,), r) ==> r == p(x as int),
            total == sum_matching(range.start as int, range.end as int, p),
            total <= u128::MAX,
            sum + sum_matching(i as int, range.end as int, p) == total,
            sum >= 0,
        decreases range.end - i,
    {
        proof {
            crate::p_02::lemma_sum_matching_nonneg(i as int + 1, range.end as int, p);
        }
        if predicate(i) {
            sum = sum + i;
        }
        i = i + 1;
    }
    proof {
        crate::p_02::lemma_sum_matching_nonneg(i as int + 1, range.end as int, p);
    }
    if predicate(i) {
        sum = sum + i;
    }
    sum
}

/// Sums the invalid identifiers of every range, first definition.
pub fn part1(ranges: Vec<Range>) -> (s: u128)
    requires
        spec_part_total(ranges@, pred_invalid()) <= u128::MAX,
    ensures
        s == spec_part_total(ranges@, pred_invalid()),
{
    let ghost f = pred_invalid();
    let mut sum: u128 = 0;
    let mut t: usize = 0;
    proof {
        assert(ranges@.skip(0) =~= ranges@);
    }
    while t < ranges.len()
        invariant
            t <= ranges@.len(),
            f == pred_invalid(),
            spec_part_total(ranges@, f) <= u128::MAX,
            sum + spec_part_total(ranges@.skip(t as int), f) == spec_part_total(ranges@, f),
            sum >= 0,
        decreases ranges@.len() - t,
    {
        let ghost rest = ranges@.skip(t as int);
        proof {
            assert(rest[0] == ranges@[t as int]);
            assert(rest.drop_first() =~= ranges@.skip(t + 1));
            crate::p_02::lemma_part_total_nonneg(ranges@.skip(t + 1), f);
            crate::p_02::lemma_sum_matching_nonneg(
                ranges@[t as int].start as int,
                ranges@[t as int].end as int,
                f,
            );
        }
        let r = Range { start: ranges[t].start, end: ranges[t].end };
        let part = invalid_sum(r, is_invalid, Ghost(f));
        sum = sum + part;
        t = t + 1;
    }
    proof {
        assert(ranges@.skip(ranges@.len() as int) =~= Seq::<Range>::empty());
    }
    sum
}

/// Sums the invalid identifiers of every range, repeated-block
/// definition.
pub fn part2(ranges: Vec<Range>) -> (s: u128)
    requires
        spec_part_total(ranges@, pred_invalid_2()) <= u128::MAX,
    ensures
        s == spec_part_total(ranges@, pred_invalid_2()),
{
    let ghost f = pred_invalid_2();
    let mut sum: u128 = 0;
    let mut t: usize = 0;
    proof {
        assert(ranges@.skip(0) =~= ranges@);
    }
    while t < ranges.len()
        invariant
            t <= ranges@.len(),
            f == pred_invalid_2(),
            spec_part_total(ranges@, f) <= u128::MAX,
            sum + spec_part_total(ranges@.skip(t as int), f) == spec_part_total(ranges@, f),
            sum >= 0,
        decreases ranges@.len() - t,
    {
        let ghost rest = ranges@.skip(t as int);
        proof {
            assert(rest[0] == ranges@[t as int]);
            assert(rest.drop_first() =~= ranges@.skip(t + 1));
            crate::p_02::lemma_part_total_nonneg(ranges@.skip(t + 1), f);
            crate::p_02::lemma_sum_matching_nonneg(
                ranges@[t as int].start as int,
                ranges@[t as int].end as int,
                f,
            );
        }
        let r = Range { start: ranges[t].start, end: ranges[t].end };
        let part = invalid_sum(r, is_invalid_2, Ghost(f));
        sum = sum + part;
        t = t + 1;
    }
    proof {
        assert(ranges@.skip(ranges@.len() as int) =~= Seq::<Range>::empty());
    }
    sum
}

} // verus!
