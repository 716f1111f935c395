//! Column arithmetic: a table of numbers with one operator per column;
//! each column evaluates to the sum or product of its entries, and the
//! answer is the sum of the column values.
use vstd::prelude::*;

verus! {

/// Sum of column `i` over the first `upto` rows.
pub open spec fn col_sum(nums: Seq<Vec<u128>>, i: int, upto: int) -> int
    decreases upto,
{
    if upto <= 0 {
        0
    } else {
        col_sum(nums, i, upto - 1) + nums[upto - 1]@[i]
    }
}

/// Product of column `i` over the first `upto` rows.
pub open spec fn col_prod(nums: Seq<Vec<u128>>, i: int, upto: int) -> int
    decreases upto,
{
    if upto <= 0 {
        1
    } else {
        col_prod(nums, i, upto - 1) * nums[upto - 1]@[i]
    }
}

/// The value of column `i` under its operator.
pub open spec fn col_val(nums: Seq<Vec<u128>>, op: char, i: int) -> int {
    if op == '+' {
        col_sum(nums, i, nums.len() as int)
    } else if op == '*' {
        col_prod(nums, i, nums.len() as int)
    } else {
        0
    }
}

/// The answer: the sum of the column values, over the first `upto`
/// columns.
pub open spec fn cols_total(nums: Seq<Vec<u128>>, ops: Seq<char>, upto: int) -> int
    decreases upto,
{
    if upto <= 0 {
        0
    } else {
        cols_total(nums, ops, upto - 1) + col_val(nums, ops[upto - 1], upto - 1)
    }
}

/// Every row is long enough for every operator column.
pub open spec fn rows_wide_enough(nums: Seq<Vec<u128>>, width: int) -> bool {
    forall|r: int| 0 <= r < nums.len() ==> (#[trigger] nums[r])@.len() >= width
}

/// No intermediate column value overflows: sums are monotone so the final
/// sum suffices, while every prefix of a product must fit (a later zero
/// does not excuse an earlier overflow).
pub open spec fn cols_fit(nums: Seq<Vec<u128>>, ops: Seq<char>) -> bool {
    &&& forall|i: int|
        0 <= i < ops.len() && ops[i] == '+' ==> #[trigger] col_sum(nums, i, nums.len() as int)
            <= u128::MAX
    &&& forall|i: int, t: int|
        0 <= i < ops.len() && ops[i] == '*' && 0 <= t <= nums.len() ==> #[trigger] col_prod(
            nums,
            i,
            t,
        ) <= u128::MAX
}

proof fn lemma_col_sum_nonneg(nums: Seq<Vec<u128>>, i: int, upto: int)
    ensures
        col_sum(nums, i, upto) >= 0,
    decreases upto,
{
    if upto > 0 {
        lemma_col_sum_nonneg(nums, i, upto - 1);
    }
}

proof fn lemma_col_sum_mono(nums: Seq<Vec<u128>>, i: int, t: int, upto: int)
    requires
        0 <= t <= upto,
    ensures
        col_sum(nums, i, t) <= col_sum(nums, i, upto),
    decreases upto - t,
{
    if t < upto {
        lemma_col_sum_mono(nums, i, t, upto - 1);
    }
}

proof fn lemma_col_prod_nonneg(nums: Seq<Vec<u128>>, i: int, upto: int)
    ensures
        col_prod(nums, i, upto) >= 0,
    decreases upto,
{
    if upto > 0 {
        lemma_col_prod_nonneg(nums, i, upto - 1);
        assert(col_prod(nums, i, upto - 1) * nums[upto - 1]@[i] >= 0) by (nonlinear_arith)
            requires
                col_prod(nums, i, upto - 1) >= 0,
                nums[upto - 1]@[i] >= 0,
        ;
    }
}

/// Column-wise evaluation of the table under its operators.
pub fn part1(numbers: &Vec<Vec<u128>>, operators: &Vec<char>) -> (ans: u128)
    requires
        rows_wide_enough(numbers@, operators@.len() as int),
        cols_fit(numbers@, operators@),
        cols_total(numbers@, operators@, operators@.len() as int) <= u128::MAX,
    ensures
        ans == cols_total(numbers@, operators@, operators@.len() as int),
{
    let ghost nums = numbers@;
    let ghost ops = operators@;
    let n_rows = numbers.len();
    let n_ops = operators.len();
    let mut total: u128 = 0;
    let mut i: usize = 0;
    proof {
        lemma_cols_total_nonneg(nums, ops, n_ops as int);
    }
    while i < n_ops
        invariant
            i <= n_ops,
            nums == numbers@,
            ops == operators@,
            n_rows == nums.len(),
            n_ops == ops.len(),
            rows_wide_enough(nums, n_ops as int),
            cols_fit(nums, ops),
            cols_total(nums, ops, n_ops as int) <= u128::MAX,
            total == cols_total(nums, ops, i as int),
            total >= 0,
        decreases n_ops - i,
    {
        let op = operators[i];
        let mut col: u128 = if op == '*' {
            1
        } else {
            0
        };
        if op == '+' {
            let mut r: usize = 0;
            while r < n_rows
                invariant
                    r <= n_rows,
                    i < n_ops,
                    op == ops[i as int],
                    op == '+',
                    nums == numbers@,
                    ops == operators@,
                    n_rows == nums.len(),
                    n_ops == ops.len(),
                    rows_wide_enough(nums, n_ops as int),
                    cols_fit(nums, ops),
                    col == col_sum(nums, i as int, r as int),
                decreases n_rows - r,
            {
                proof {
                    lemma_col_sum_mono(nums, i as int, r + 1, n_rows as int);
                    lemma_col_sum_nonneg(nums, i as int, r as int);
                }
                col = col + numbers[r][i];
                r = r + 1;
            }
        } else if op == '*' {
            let mut r: usize = 0;
            while r < n_rows
                invariant
                    r <= n_rows,
                    i < n_ops,
                    op == ops[i as int],
                    op == '*',
                    nums == numbers@,
                    ops == operators@,
                    n_rows == nums.len(),
                    n_ops == ops.len(),
                    rows_wide_enough(nums, n_ops as int),
                    cols_fit(nums, ops),
                    col == col_prod(nums, i as int, r as int),
                decreases n_rows - r,
            {
                proof {
                    lemma_col_prod_nonneg(nums, i as int, r as int);
                    assert(col_prod(nums, i as int, r + 1) <= u128::MAX);
                }
                col = col * numbers[r][i];
                r = r + 1;
            }
        }
        proof {
            assert(col == col_val(nums, ops[i as int], i as int));
            lemma_cols_total_nonneg(nums, ops, i + 1);
            lemma_cols_total_mono(nums, ops, i + 1, n_ops as int);
        }
        total = total + col;
        i = i + 1;
    }
    total
}

proof fn lemma_col_val_nonneg(nums: Seq<Vec<u128>>, op: char, i: int)
    ensures
        col_val(nums, op, i) >= 0,
{
    lemma_col_sum_nonneg(nums, i, nums.len() as int);
    lemma_col_prod_nonneg(nums, i, nums.len() as int);
}

proof fn lemma_cols_total_nonneg(nums: Seq<Vec<u128>>, ops: Seq<char>, upto: int)
    ensures
        cols_total(nums, ops, upto) >= 0,
    decreases upto,
{
    if upto > 0 {
        lemma_cols_total_nonneg(nums, ops, upto - 1);
        lemma_col_val_nonneg(nums, ops[upto - 1], upto - 1);
    }
}

proof fn lemma_cols_total_mono(nums: Seq<Vec<u128>>, ops: Seq<char>, t: int, upto: int)
    requires
        0 <= t <= upto,
    ensures
        cols_total(nums, ops, t) <= cols_total(nums, ops, upto),
    decreases upto - t,
{
    if t < upto {
        lemma_cols_total_mono(nums, ops, t, upto - 1);
        lemma_col_val_nonneg(nums, ops[upto - 1], upto - 1);
    }
}

/// A decimal digit character.
pub open spec fn is_digit_char(c: char) -> bool {
    48 <= c as int <= 57
}

pub open spec fn str_digits(s: Seq<char>) -> bool {
    forall|q: int| 0 <= q < s.len() ==> is_digit_char(#[trigger] s[q])
}

pub open spec fn digit_strings(ss: Seq<String>) -> bool {
    forall|r: int| 0 <= r < ss.len() ==> str_digits((#[trigger] ss[r])@)
}

/// Longest and shortest string length among the first `upto` entries.
pub open spec fn max_len_upto(ss: Seq<String>, upto: int) -> int
    decreases upto,
{
    if upto <= 0 {
        0
    } else {
        let rest = max_len_upto(ss, upto - 1);
        if ss[upto - 1]@.len() > rest {
            ss[upto - 1]@.len() as int
        } else {
            rest
        }
    }
}

pub open spec fn min_len_upto(ss: Seq<String>, upto: int) -> int
    decreases upto,
{
    if upto <= 0 {
        usize::MAX as int
    } else {
        let rest = min_len_upto(ss, upto - 1);
        if ss[upto - 1]@.len() < rest {
            ss[upto - 1]@.len() as int
        } else {
            rest
        }
    }
}

/// The longest and shortest digit-string lengths (in characters).
pub fn _get_digit_bounds(nums: &Vec<String>) -> (r: (usize, usize))
    ensures
        r.0 == max_len_upto(nums@, nums@.len() as int),
        r.1 == min_len_upto(nums@, nums@.len() as int),
{
    let mut max_len: usize = 0;
    let mut min_len: usize = usize::MAX;
    let mut t: usize = 0;
    while t < nums.len()
        invariant
            t <= nums@.len(),
            max_len == max_len_upto(nums@, t as int),
            min_len == min_len_upto(nums@, t as int),
        decreases nums@.len() - t,
    {
        let l = nums[t].as_str().unicode_len();
        if l > max_len {
            max_len = l;
        }
        if l < min_len {
            min_len = l;
        }
        t = t + 1;
    }
    (max_len, min_len)
}

/// The digit characters read at position `pos` (1-based from the left)
/// from the first `upto` strings long enough to have one.
pub open spec fn col_digits(ss: Seq<String>, pos: int, upto: int) -> Seq<char>
    decreases upto,
{
    if upto <= 0 {
        Seq::empty()
    } else {
        col_digits(ss, pos, upto - 1) + (if ss[upto - 1]@.len() >= pos {
            seq![ss[upto - 1]@[pos - 1]]
        } else {
            Seq::empty()
        })
    }
}

/// The decimal value of a digit-character sequence (empty reads as 0).
pub open spec fn val_of(ds: Seq<char>) -> int
    decreases ds.len(),
{
    if ds.len() == 0 {
        0
    } else {
        val_of(ds.drop_last()) * 10 + (ds.last() as int - 48)
    }
}

proof fn lemma_val_nonneg(ds: Seq<char>)
    requires
        str_digits(ds),
    ensures
        val_of(ds) >= 0,
    decreases ds.len(),
{
    if ds.len() > 0 {
        assert(str_digits(ds.drop_last()));
        lemma_val_nonneg(ds.drop_last());
        assert(is_digit_char(ds.last()));
        assert(val_of(ds.drop_last()) * 10 >= 0) by (nonlinear_arith)
            requires
                val_of(ds.drop_last()) >= 0,
        ;
    }
}

proof fn lemma_col_digits_digits(ss: Seq<String>, pos: int, upto: int)
    requires
        digit_strings(ss),
        upto <= ss.len(),
        pos >= 1,
    ensures
        str_digits(col_digits(ss, pos, upto)),
    decreases upto,
{
    if upto > 0 {
        lemma_col_digits_digits(ss, pos, upto - 1);
        assert forall|q: int|
            0 <= q < col_digits(ss, pos, upto).len() implies is_digit_char(
            #[trigger] col_digits(ss, pos, upto)[q]) by {
            let prev = col_digits(ss, pos, upto - 1);
            if q < prev.len() {
                assert(col_digits(ss, pos, upto)[q] == prev[q]);
            } else {
                if ss[upto - 1]@.len() >= pos {
                    assert(col_digits(ss, pos, upto) =~= prev.push(ss[upto - 1]@[pos - 1]));
                    assert(col_digits(ss, pos, upto)[q] == ss[upto - 1]@[pos - 1]);
                    assert(str_digits(ss[upto - 1]@));
                    assert(0 <= pos - 1 < ss[upto - 1]@.len());
                } else {
                    assert(col_digits(ss, pos, upto) =~= prev);
                    assert(false);
                }
            }
        }
    }
}

/// The values read column-wise: for each position from the longest length
/// down to 1, the digits at that position concatenate (in row order) into
/// one number.
pub fn return_significant_sum(nums: &Vec<String>) -> (sol: Vec<u128>)
    requires
        digit_strings(nums@),
        forall|pos: int|
            1 <= pos <= max_len_upto(nums@, nums@.len() as int) ==> val_of(
                #[trigger] col_digits(nums@, pos, nums@.len() as int),
            ) <= u128::MAX,
    ensures
        sol@.len() == max_len_upto(nums@, nums@.len() as int),
        forall|t: int|
            0 <= t < sol@.len() ==> #[trigger] sol@[t] as int == val_of(
                col_digits(nums@, max_len_upto(nums@, nums@.len() as int) - t, nums@.len() as int),
            ),
{
    let ghost ss = nums@;
    let ghost full = nums@.len() as int;
    let (max_len, _min_len) = _get_digit_bounds(nums);
    let mut sol: Vec<u128> = Vec::new();
    let mut pos: usize = max_len;
    while pos >= 1
        invariant
            pos <= max_len,
            ss == nums@,
            full == nums@.len() as int,
            max_len == max_len_upto(ss, full),
            digit_strings(ss),
            forall|p: int|
                1 <= p <= max_len ==> val_of(#[trigger] col_digits(ss, p, full)) <= u128::MAX,
            sol@.len() == max_len - pos,
            forall|t: int|
                0 <= t < sol@.len() ==> #[trigger] sol@[t] as int == val_of(
                    col_digits(ss, max_len - t, full),
                ),
        decreases pos,
    {
        let mut curr: u128 = 0;
        let mut r: usize = 0;
        proof {
            lemma_col_digits_digits(ss, pos as int, full);
            assert(col_digits(ss, pos as int, 0) =~= Seq::<char>::empty());
        }
        while r < nums.len()
            invariant
                r <= nums@.len(),
                ss == nums@,
                full == nums@.len() as int,
                1 <= pos,
                digit_strings(ss),
                str_digits(col_digits(ss, pos as int, full)),
                val_of(col_digits(ss, pos as int, full)) <= u128::MAX,
                curr as int == val_of(col_digits(ss, pos as int, r as int)),
            decreases nums@.len() - r,
        {
            let num = &nums[r];
            let l = num.as_str().unicode_len();
            let ghost before = col_digits(ss, pos as int, r as int);
            proof {
                lemma_col_digits_digits(ss, pos as int, r as int);
            }
            if l >= pos {
                let c = num.as_str().get_char(pos - 1);
                proof {
                    assert(c == ss[r as int]@[pos - 1]);
                    assert(str_digits(ss[r as int]@));
                    assert(is_digit_char(c));
                    let now = col_digits(ss, pos as int, r + 1);
                    assert(now =~= before.push(c));
                    assert(now.drop_last() =~= before);
                    assert(val_of(now) == val_of(before) * 10 + (c as int - 48));
                    lemma_col_digits_digits(ss, pos as int, r + 1);
                    lemma_val_nonneg(before);
                    lemma_val_nonneg(now);
                    assert(val_of(now) <= u128::MAX) by {
                        lemma_col_digits_split_bound(ss, pos as int, r + 1, full);
                    }
                    assert(val_of(before) * 10 + (c as int - 48) <= u128::MAX);
                }
                let d = (c as u32) - 48;
                curr = curr * 10 + d as u128;
            } else {
                proof {
                    assert(col_digits(ss, pos as int, r + 1) =~= before);
                }
            }
            r = r + 1;
        }
        sol.push(curr);
        proof {
            assert(sol@[sol@.len() - 1] == curr);
            assert(max_len - (sol@.len() - 1) == pos as int);
        }
        pos = pos - 1;
    }
    sol
}

/// A column prefix never exceeds the full column's value.
proof fn lemma_col_digits_split_bound(ss: Seq<String>, pos: int, t: int, full: int)
    requires
        0 <= t <= full <= ss.len(),
        digit_strings(ss),
        pos >= 1,
    ensures
        val_of(col_digits(ss, pos, t)) <= val_of(col_digits(ss, pos, full)),
    decreases full - t,
{
    if t < full {
        lemma_col_digits_split_bound(ss, pos, t, full - 1);
        lemma_col_digits_digits(ss, pos, full - 1);
        lemma_val_nonneg(col_digits(ss, pos, full - 1));
        if ss[full - 1]@.len() >= pos {
            let c = ss[full - 1]@[pos - 1];
            assert(col_digits(ss, pos, full) =~= col_digits(ss, pos, full - 1).push(c));
            assert(col_digits(ss, pos, full).drop_last() =~= col_digits(ss, pos, full - 1));
            assert(str_digits(ss[full - 1]@));
            assert(is_digit_char(c));
            let v = val_of(col_digits(ss, pos, full - 1));
            assert(v * 10 >= v) by (nonlinear_arith)
                requires
                    v >= 0,
            ;
        } else {
            assert(col_digits(ss, pos, full) =~= col_digits(ss, pos, full - 1));
        }
    }
}

/// The column values of one digit table, most significant position first.
pub open spec fn vals_list(ss: Seq<String>) -> Seq<int> {
    Seq::new(
        max_len_upto(ss, ss.len() as int) as nat,
        |t: int| val_of(col_digits(ss, max_len_upto(ss, ss.len() as int) - t, ss.len() as int)),
    )
}

pub open spec fn vsum(vs: Seq<int>, upto: int) -> int
    decreases upto,
{
    if upto <= 0 {
        0
    } else {
        vsum(vs, upto - 1) + vs[upto - 1]
    }
}

pub open spec fn vprod(vs: Seq<int>, upto: int) -> int
    decreases upto,
{
    if upto <= 0 {
        1
    } else {
        vprod(vs, upto - 1) * vs[upto - 1]
    }
}

/// A digit table the reading accepts: digit characters only, and every
/// column value fits the machine word.
pub open spec fn col_ok(ss: Seq<String>) -> bool {
    &&& digit_strings(ss)
    &&& forall|pos: int|
        1 <= pos <= max_len_upto(ss, ss.len() as int) ==> val_of(
            #[trigger] col_digits(ss, pos, ss.len() as int),
        ) <= u128::MAX
}

/// The reduction of one table under its operator does not overflow: every
/// partial product must fit, sums are monotone.
pub open spec fn col2_fits(ss: Seq<String>, op: char) -> bool {
    if op == '*' {
        forall|t: int|
            0 <= t <= vals_list(ss).len() ==> #[trigger] vprod(vals_list(ss), t) <= u128::MAX
    } else {
        vsum(vals_list(ss), vals_list(ss).len() as int) <= u128::MAX
    }
}

/// One table's value: product or sum of its column values.
pub open spec fn col2_val(ss: Seq<String>, op: char) -> int {
    if op == '*' {
        vprod(vals_list(ss), vals_list(ss).len() as int)
    } else {
        vsum(vals_list(ss), vals_list(ss).len() as int)
    }
}

pub open spec fn paired_len(cols: Seq<Vec<String>>, ops: Seq<char>) -> int {
    if cols.len() <= ops.len() {
        cols.len() as int
    } else {
        ops.len() as int
    }
}

/// The final answer over the paired tables and operators.
pub open spec fn part2_total(cols: Seq<Vec<String>>, ops: Seq<char>, upto: int) -> int
    decreases upto,
{
    if upto <= 0 {
        0
    } else {
        part2_total(cols, ops, upto - 1) + col2_val(cols[upto - 1]@, ops[upto - 1])
    }
}

proof fn lemma_vals_nonneg(ss: Seq<String>)
    requires
        digit_strings(ss),
    ensures
        forall|t: int| 0 <= t < vals_list(ss).len() ==> #[trigger] vals_list(ss)[t] >= 0,
{
    assert forall|t: int|
        0 <= t < vals_list(ss).len() implies #[trigger] vals_list(ss)[t] >= 0 by {
        let pos = max_len_upto(ss, ss.len() as int) - t;
        lemma_col_digits_digits(ss, pos, ss.len() as int);
        lemma_val_nonneg(col_digits(ss, pos, ss.len() as int));
    }
}

proof fn lemma_vsum_nonneg(vs: Seq<int>, upto: int)
    requires
        forall|t: int| 0 <= t < vs.len() ==> #[trigger] vs[t] >= 0,
        upto <= vs.len(),
    ensures
        vsum(vs, upto) >= 0,
    decreases upto,
{
    if upto > 0 {
        lemma_vsum_nonneg(vs, upto - 1);
    }
}

proof fn lemma_vsum_mono(vs: Seq<int>, t: int, upto: int)
    requires
        forall|q: int| 0 <= q < vs.len() ==> #[trigger] vs[q] >= 0,
        0 <= t <= upto <= vs.len(),
    ensures
        vsum(vs, t) <= vsum(vs, upto),
    decreases upto - t,
{
    if t < upto {
        lemma_vsum_mono(vs, t, upto - 1);
    }
}

proof fn lemma_vprod_nonneg(vs: Seq<int>, upto: int)
    requires
        forall|t: int| 0 <= t < vs.len() ==> #[trigger] vs[t] >= 0,
        upto <= vs.len(),
    ensures
        vprod(vs, upto) >= 0,
    decreases upto,
{
    if upto > 0 {
        lemma_vprod_nonneg(vs, upto - 1);
        assert(vprod(vs, upto - 1) * vs[upto - 1] >= 0) by (nonlinear_arith)
            requires
                vprod(vs, upto - 1) >= 0,
                vs[upto - 1] >= 0,
        ;
    }
}

proof fn lemma_col2_val_nonneg(ss: Seq<String>, op: char)
    requires
        digit_strings(ss),
    ensures
        col2_val(ss, op) >= 0,
{
    lemma_vals_nonneg(ss);
    lemma_vsum_nonneg(vals_list(ss), vals_list(ss).len() as int);
    lemma_vprod_nonneg(vals_list(ss), vals_list(ss).len() as int);
}

proof fn lemma_part2_total_mono(cols: Seq<Vec<String>>, ops: Seq<char>, t: int, upto: int)
    requires
        0 <= t <= upto,
        forall|c: int| 0 <= c < upto ==> digit_strings((#[trigger] cols[c])@),
    ensures
        part2_total(cols, ops, t) <= part2_total(cols, ops, upto),
        part2_total(cols, ops, t) >= 0,
    decreases upto - t + t,
{
    if t < upto {
        lemma_part2_total_mono(cols, ops, t, upto - 1);
        lemma_col2_val_nonneg(cols[upto - 1]@, ops[upto - 1]);
    } else if t > 0 {
        lemma_part2_total_mono(cols, ops, t - 1, t - 1);
        lemma_col2_val_nonneg(cols[t - 1]@, ops[t - 1]);
    }
}

/// Evaluates every digit table under its operator and sums the results:
/// each table is read column-wise into numbers first.
pub fn part2(cols: &Vec<Vec<String>>, operators: &Vec<char>) -> (ans: u128)
    requires
        forall|c: int|
            0 <= c < paired_len(cols@, operators@) ==> col_ok((#[trigger] cols@[c])@) && col2_fits(
                cols@[c]@,
                operators@[c],
            ),
        part2_total(cols@, operators@, paired_len(cols@, operators@)) <= u128::MAX,
    ensures
        ans == part2_total(cols@, operators@, paired_len(cols@, operators@)),
{
    let ghost cv = cols@;
    let ghost ops = operators@;
    let ghost paired = paired_len(cols@, operators@);
    let width = if cols.len() <= operators.len() {
        cols.len()
    } else {
        operators.len()
    };
    let mut ans: u128 = 0;
    let mut c: usize = 0;
    while c < width
        invariant
            c <= width,
            cv == cols@,
            ops == operators@,
            width as int == paired,
            paired == paired_len(cv, ops),
            forall|q: int|
                0 <= q < paired ==> col_ok((#[trigger] cv[q])@) && col2_fits(cv[q]@, ops[q]),
            part2_total(cv, ops, paired) <= u128::MAX,
            ans == part2_total(cv, ops, c as int),
        decreases width - c,
    {
        let nums_col = &cols[c];
        let op = operators[c];
        let ghost ss = nums_col@;
        let vals = return_significant_sum(nums_col);
        let ghost vl = vals_list(ss);
        proof {
            assert(col_ok(ss));
            assert forall|t: int| 0 <= t < vals@.len() implies #[trigger] vals@[t] as int
                == vl[t] by {}
            assert(vals@.len() == vl.len());
            lemma_vals_nonneg(ss);
        }
        let mut res: u128 = if op == '*' {
            1
        } else {
            0
        };
        let nvals = vals.len();
        if op == '*' {
            let mut t: usize = 0;
            while t < nvals
                invariant
                    t <= nvals,
                    op == '*',
                    nvals == vl.len(),
                    forall|q: int| 0 <= q < vals@.len() ==> #[trigger] vals@[q] as int == vl[q],
                    vals@.len() == vl.len(),
                    forall|q: int| 0 <= q < vl.len() ==> #[trigger] vl[q] >= 0,
                    forall|q: int| 0 <= q <= vl.len() ==> #[trigger] vprod(vl, q) <= u128::MAX,
                    res == vprod(vl, t as int),
                decreases nvals - t,
            {
                proof {
                    lemma_vprod_nonneg(vl, t as int);
                    assert(vprod(vl, t + 1) <= u128::MAX);
                }
                res = res * vals[t];
                t = t + 1;
            }
        } else {
            let mut t: usize = 0;
            while t < nvals
                invariant
                    t <= nvals,
                    op != '*',
                    nvals == vl.len(),
                    forall|q: int| 0 <= q < vals@.len() ==> #[trigger] vals@[q] as int == vl[q],
                    vals@.len() == vl.len(),
                    forall|q: int| 0 <= q < vl.len() ==> #[trigger] vl[q] >= 0,
                    vsum(vl, vl.len() as int) <= u128::MAX,
                    res == vsum(vl, t as int),
                decreases nvals - t,
            {
                proof {
                    lemma_vsum_nonneg(vl, t as int);
                    lemma_vsum_mono(vl, t + 1, vl.len() as int);
                }
                res = res + vals[t];
                t = t + 1;
            }
        }
        proof {
            assert(res == col2_val(ss, op));
            assert forall|q: int| 0 <= q < c + 1 implies digit_strings((#[trigger] cv[q])@) by {}
            lemma_part2_total_mono(cv, ops, c + 1, c + 1);
            assert forall|q: int| 0 <= q < paired implies digit_strings((#[trigger] cv[q])@) by {}
            lemma_part2_total_mono(cv, ops, c + 1, paired);
        }
        ans = ans + res;
        c = c + 1;
    }
    ans
}

/// Whitespace, as the input format uses it.
pub open spec fn is_ws(c: char) -> bool {
    c == ' ' || c == '\t' || c == '\r' || c == '\n'
}

/// The index of the first whitespace at or after `i` (or the end).
pub open spec fn token_end(s: Seq<char>, i: int) -> int
    decreases s.len() - i,
{
    if !(0 <= i < s.len()) {
        i
    } else if is_ws(s[i]) {
        i
    } else {
        token_end(s, i + 1)
    }
}

proof fn lemma_token_end_bounds(s: Seq<char>, i: int)
    requires
        0 <= i <= s.len(),
    ensures
        i <= token_end(s, i) <= s.len(),
        i < s.len() && !is_ws(s[i]) ==> token_end(s, i) > i,
        forall|q: int| i <= q < token_end(s, i) ==> !is_ws(#[trigger] s[q]),
        token_end(s, i) < s.len() ==> is_ws(s[token_end(s, i)]),
    decreases s.len() - i,
{
    if 0 <= i < s.len() && !is_ws(s[i]) {
        lemma_token_end_bounds(s, i + 1);
    }
}

/// The whitespace-separated tokens of `s`, from position `i` on.
pub open spec fn tokens_from(s: Seq<char>, i: int) -> Seq<Seq<char>>
    decreases s.len() - i,
    via tokens_from_decreases
{
    if !(0 <= i < s.len()) {
        Seq::empty()
    } else if is_ws(s[i]) {
        tokens_from(s, i + 1)
    } else {
        seq![s.subrange(i, token_end(s, i))] + tokens_from(s, token_end(s, i))
    }
}

#[via_fn]
proof fn tokens_from_decreases(s: Seq<char>, i: int) {
    if 0 <= i < s.len() && !is_ws(s[i]) {
        lemma_token_end_bounds(s, i);
    }
}

/// The leading characters of the tokens.
pub open spec fn token_heads(ts: Seq<Seq<char>>) -> Seq<char> {
    ts.map_values(|t: Seq<char>| t[0])
}

/// Reads the operator characters: the first character of every
/// whitespace-separated token.
pub fn _read_operators(line: &str) -> (ops: Vec<char>)
    ensures
        ops@ == token_heads(tokens_from(line@, 0)),
{
    let ghost s = line@;
    let n = line.unicode_len();
    let mut ops: Vec<char> = Vec::new();
    let mut i: usize = 0;
    while i < n
        invariant
            i <= n,
            s == line@,
            n == s.len(),
            ops@ + token_heads(tokens_from(s, i as int)) =~= token_heads(tokens_from(s, 0)),
        decreases n - i,
    {
        let c = line.get_char(i);
        if c == ' ' || c == '\t' || c == '\r' || c == '\n' {
            proof {
                assert(tokens_from(s, i as int) == tokens_from(s, i + 1));
            }
            i = i + 1;
        } else {
            let ghost toks = tokens_from(s, i as int);
            let mut j = i + 1;
            proof {
                lemma_token_end_bounds(s, i as int);
            }
            while j < n && !ws_at(line, j)
                invariant
                    i < j <= n,
                    s == line@,
                    n == s.len(),
                    forall|q: int| i <= q < j ==> !is_ws(#[trigger] s[q]),
                decreases n - j,
            {
                j = j + 1;
            }
            proof {
                lemma_token_end_bounds(s, i as int);
                assert(token_end(s, i as int) == j as int) by {
                    lemma_token_end_agrees(s, i as int, j as int);
                }
                let tok = s.subrange(i as int, j as int);
                assert(toks =~= seq![tok] + tokens_from(s, j as int));
                assert(token_heads(toks) =~= seq![tok[0]] + token_heads(tokens_from(s, j as int)));
                assert(tok[0] == s[i as int]);
            }
            ops.push(c);
            proof {
                assert(ops@ + token_heads(tokens_from(s, j as int)) =~= token_heads(
                    tokens_from(s, 0),
                ));
            }
            i = j;
        }
    }
    proof {
        assert(tokens_from(s, n as int) =~= Seq::<Seq<char>>::empty());
        assert(ops@ =~= token_heads(tokens_from(s, 0)));
    }
    ops
}

/// Whether the character at `j` is whitespace.
fn ws_at(line: &str, j: usize) -> (r: bool)
    requires
        j < line@.len(),
    ensures
        r == is_ws(line@[j as int]),
{
    let c = line.get_char(j);
    c == ' ' || c == '\t' || c == '\r' || c == '\n'
}

/// A maximal non-whitespace run ends exactly where the scan stopped.
proof fn lemma_token_end_agrees(s: Seq<char>, i: int, j: int)
    requires
        0 <= i <= j <= s.len(),
        forall|q: int| i <= q < j ==> !is_ws(#[trigger] s[q]),
        j < s.len() ==> is_ws(s[j]),
    ensures
        token_end(s, i) == j,
    decreases j - i,
{
    if i < j {
        lemma_token_end_agrees(s, i + 1, j);
    }
}

/// A digit-run prefix never exceeds the full run's value.
proof fn lemma_val_subrange_mono(s: Seq<char>, i: int, q: int, j: int)
    requires
        0 <= i <= q <= j <= s.len(),
        forall|t: int| i <= t < j ==> is_digit_char(#[trigger] s[t]),
    ensures
        0 <= val_of(s.subrange(i, q)) <= val_of(s.subrange(i, j)),
    decreases j - q,
{
    assert(str_digits(s.subrange(i, q)));
    lemma_val_nonneg(s.subrange(i, q));
    if q < j {
        lemma_val_subrange_mono(s, i, q + 1, j);
        assert(s.subrange(i, q + 1).drop_last() =~= s.subrange(i, q));
        let v = val_of(s.subrange(i, q));
        assert(is_digit_char(s[q]));
        assert(val_of(s.subrange(i, q + 1)) == v * 10 + (s[q] as int - 48));
        assert(v * 10 >= v) by (nonlinear_arith)
            requires
                v >= 0,
        ;
    }
}

/// Reads the whitespace-separated decimal numbers of a line.
pub fn _read_num_line(line: &str) -> (vals: Vec<u128>)
    requires
        forall|m: int|
            0 <= m < tokens_from(line@, 0).len() ==> str_digits(
                #[trigger] tokens_from(line@, 0)[m],
            ) && val_of(tokens_from(line@, 0)[m]) <= u128::MAX,
    ensures
        vals@.len() == tokens_from(line@, 0).len(),
        forall|m: int|
            0 <= m < vals@.len() ==> #[trigger] vals@[m] as int == val_of(
                tokens_from(line@, 0)[m],
            ),
{
    let ghost s = line@;
    let ghost all = tokens_from(s, 0);
    let n = line.unicode_len();
    let mut vals: Vec<u128> = Vec::new();
    let mut i: usize = 0;
    proof {
        assert(all.skip(0) =~= all);
    }
    while i < n
        invariant
            i <= n,
            s == line@,
            n == s.len(),
            all == tokens_from(s, 0),
            forall|m: int|
                0 <= m < all.len() ==> str_digits(#[trigger] all[m]) && val_of(all[m])
                    <= u128::MAX,
            vals@.len() <= all.len(),
            tokens_from(s, i as int) =~= all.skip(vals@.len() as int),
            forall|m: int|
                0 <= m < vals@.len() ==> #[trigger] vals@[m] as int == val_of(all[m]),
        decreases n - i,
    {
        if ws_at(line, i) {
            proof {
                assert(tokens_from(s, i as int) == tokens_from(s, i + 1));
            }
            i = i + 1;
        } else {
            let ghost k = vals@.len() as int;
            let mut j = i + 1;
            proof {
                lemma_token_end_bounds(s, i as int);
            }
            while j < n && !ws_at(line, j)
                invariant
                    i < j <= n,
                    s == line@,
                    n == s.len(),
                    forall|q: int| i <= q < j ==> !is_ws(#[trigger] s[q]),
                decreases n - j,
            {
                j = j + 1;
            }
            let ghost tok = s.subrange(i as int, j as int);
            proof {
                lemma_token_end_agrees(s, i as int, j as int);
                assert(tokens_from(s, i as int) =~= seq![tok] + tokens_from(s, j as int));
                assert(tokens_from(s, i as int)[0] == tok);
                assert(all.skip(k)[0] == all[k]);
                assert(tok == all[k]);
                assert(str_digits(tok) && val_of(tok) <= u128::MAX);
                assert(tokens_from(s, j as int) =~= all.skip(k).drop_first());
                assert(all.skip(k).drop_first() =~= all.skip(k + 1));
                assert(tok.len() == j - i);
                assert forall|t: int| i <= t < j implies is_digit_char(#[trigger] s[t]) by {
                    assert(tok[t - i] == s[t]);
                }
            }
            let mut value: u128 = 0;
            let mut q: usize = i;
            proof {
                assert(s.subrange(i as int, i as int) =~= Seq::<char>::empty());
            }
            while q < j
                invariant
                    i <= q <= j <= n,
                    s == line@,
                    n == s.len(),
                    forall|t: int| i <= t < j ==> is_digit_char(#[trigger] s[t]),
                    val_of(s.subrange(i as int, j as int)) <= u128::MAX,
                    value as int == val_of(s.subrange(i as int, q as int)),
                decreases j - q,
            {
                proof {
                    lemma_val_subrange_mono(s, i as int, q + 1, j as int);
                    assert(s.subrange(i as int, q + 1).drop_last() =~= s.subrange(
                        i as int,
                        q as int,
                    ));
                    assert(s.subrange(i as int, q + 1).last() == s[q as int]);
                    assert(is_digit_char(s[q as int]));
                }
                let c = line.get_char(q);
                let d = (c as u32) - 48;
                value = value * 10 + d as u128;
                q = q + 1;
            }
            vals.push(value);
            proof {
                assert(vals@[k] as int == val_of(tok));
                assert(tokens_from(s, j as int) =~= all.skip(vals@.len() as int));
                assert(vals@.len() <= all.len()) by {
                    if vals@.len() > all.len() {
                        assert(all.skip(k).len() == all.len() - k);
                    }
                }
            }
            i = j;
        }
    }
    proof {
        assert(tokens_from(s, n as int) =~= Seq::<Seq<char>>::empty());
        assert(all.skip(vals@.len() as int).len() == 0);
        assert(vals@.len() == all.len());
    }
    vals
}

/// Reads the whitespace-separated tokens of a line as owned strings.
pub fn _read_num_line_2(line: &str) -> (toks: Vec<String>)
    ensures
        toks@.len() == tokens_from(line@, 0).len(),
        forall|m: int|
            0 <= m < toks@.len() ==> (#[trigger] toks@[m])@ == tokens_from(line@, 0)[m],
{
    let ghost s = line@;
    let ghost all = tokens_from(s, 0);
    let n = line.unicode_len();
    let mut toks: Vec<String> = Vec::new();
    let mut i: usize = 0;
    proof {
        assert(all.skip(0) =~= all);
    }
    while i < n
        invariant
            i <= n,
            s == line@,
            n == s.len(),
            all == tokens_from(s, 0),
            toks@.len() <= all.len(),
            tokens_from(s, i as int) =~= all.skip(toks@.len() as int),
            forall|m: int| 0 <= m < toks@.len() ==> (#[trigger] toks@[m])@ == all[m],
        decreases n - i,
    {
        if ws_at(line, i) {
            proof {
                assert(tokens_from(s, i as int) == tokens_from(s, i + 1));
            }
            i = i + 1;
        } else {
            let ghost k = toks@.len() as int;
            let mut j = i + 1;
            proof {
                lemma_token_end_bounds(s, i as int);
            }
            while j < n && !ws_at(line, j)
                invariant
                    i < j <= n,
                    s == line@,
                    n == s.len(),
                    forall|q: int| i <= q < j ==> !is_ws(#[trigger] s[q]),
                decreases n - j,
            {
                j = j + 1;
            }
            let ghost tok = s.subrange(i as int, j as int);
            proof {
                lemma_token_end_agrees(s, i as int, j as int);
                assert(tokens_from(s, i as int) =~= seq![tok] + tokens_from(s, j as int));
                assert(all.skip(k)[0] == all[k]);
                assert(tok == all[k]);
                assert(tokens_from(s, j as int) =~= all.skip(k).drop_first());
                assert(all.skip(k).drop_first() =~= all.skip(k + 1));
            }
            let piece = line.substring_char(i, j).to_owned();
            toks.push(piece);
            proof {
                assert(toks@[k]@ == tok);
                assert(tokens_from(s, j as int) =~= all.skip(toks@.len() as int));
                assert(toks@.len() <= all.len()) by {
                    if toks@.len() > all.len() {
                        assert(all.skip(k).len() == all.len() - k);
                    }
                }
            }
            i = j;
        }
    }
    proof {
        assert(tokens_from(s, n as int) =~= Seq::<Seq<char>>::empty());
        assert(all.skip(toks@.len() as int).len() == 0);
    }
    toks
}

} // verus!
