//! Static cost of a histogram: entropy of the counts plus the price of sending
//! the code that an entropy coder would need.
use vstd::prelude::*;
use crate::histogram::Histogram;
use crate::log2::{
    log2_fixed, lemma_log2_double, lemma_log2_monotone, lemma_log2_u64, BitCost, FastLog2, ONE_BIT,
};

verus! {

/// Number of code-length symbols: depths 0 to 16 and the zero-run escape.
pub const BROTLI_CODE_LENGTH_CODES: usize = 18;

/// The code-length symbol that stands for a run of zero counts.
pub const BROTLI_REPEAT_ZERO_CODE_LENGTH: usize = 17;

/// Sum of all counts.
pub open spec fn sum_counts(s: Seq<u32>) -> nat
    decreases s.len(),
{
    if s.len() == 0 {
        0
    } else {
        sum_counts(s.drop_last()) + s.last() as nat
    }
}

/// Sum of `count * log2(count)` over all counts, in fixed point.
pub open spec fn sum_count_log2(s: Seq<u32>) -> nat
    decreases s.len(),
{
    if s.len() == 0 {
        0
    } else {
        sum_count_log2(s.drop_last()) + s.last() as nat * log2_fixed(s.last() as nat)
    }
}

/// The sum of all counts as a `usize` accumulator holds it: reduced modulo the
/// word size.
pub open spec fn wrapped_total(s: Seq<u32>) -> nat {
    sum_counts(s) % (usize::MAX as nat + 1)
}

/// `total * log2(total) - sum(count * log2(count))`, with `total` the wrapped
/// sum of the counts.
pub open spec fn shannon_entropy(s: Seq<u32>) -> int {
    wrapped_total(s) * log2_fixed(wrapped_total(s)) - sum_count_log2(s)
}

/// The entropy, but never less than one bit per counted symbol.
pub open spec fn bits_entropy(s: Seq<u32>) -> int {
    if shannon_entropy(s) < wrapped_total(s) * ONE_BIT {
        wrapped_total(s) * ONE_BIT
    } else {
        shannon_entropy(s)
    }
}

/// Approximate code depth of a symbol: `log2(total / count)` rounded to the
/// nearest bit and kept within 0 to 15.
pub open spec fn symbol_depth(count: u32, log2total: int) -> int {
    let rounded = (log2total - log2_fixed(count as nat) + 32768) / 65536;
    if rounded < 0 {
        0
    } else if rounded > 15 {
        15
    } else {
        rounded
    }
}

/// Sum of `count * log2(total / count)` over the given counts.
pub open spec fn symbol_bits(counts: Seq<u32>, log2total: int) -> int
    decreases counts.len(),
{
    if counts.len() == 0 {
        0
    } else {
        symbol_bits(counts.drop_last(), log2total) + counts.last() * (log2total - log2_fixed(
            counts.last() as nat,
        ))
    }
}

/// How many of the counts have the given depth.
pub open spec fn depth_tally(counts: Seq<u32>, log2total: int, depth: int) -> nat
    decreases counts.len(),
{
    if counts.len() == 0 {
        0
    } else {
        depth_tally(counts.drop_last(), log2total, depth) + if symbol_depth(
            counts.last(),
            log2total,
        ) == depth {
            1nat
        } else {
            0nat
        }
    }
}

/// The deepest depth among the counts, and at least 1.
pub open spec fn max_depth(counts: Seq<u32>, log2total: int) -> int
    decreases counts.len(),
{
    if counts.len() == 0 {
        1
    } else {
        let rest = max_depth(counts.drop_last(), log2total);
        let last = symbol_depth(counts.last(), log2total);
        if last > rest {
            last
        } else {
            rest
        }
    }
}

/// The nonzero counts, in symbol order.
pub open spec fn nonzero_values(s: Seq<u32>) -> Seq<u32>
    decreases s.len(),
{
    if s.len() == 0 {
        Seq::empty()
    } else if s.last() > 0 {
        nonzero_values(s.drop_last()).push(s.last())
    } else {
        nonzero_values(s.drop_last())
    }
}

/// Length of the run of zero counts that begins at symbol `i` (0 if the count
/// there is not zero).
pub open spec fn zero_run_len(data: Seq<u32>, i: int) -> nat
    decreases data.len() - i,
{
    if 0 <= i < data.len() && data[i] == 0 {
        1 + zero_run_len(data, i + 1)
    } else {
        0
    }
}

/// Whether a maximal run of zero counts begins at symbol `i`.
pub open spec fn starts_zero_run(data: Seq<u32>, i: int) -> bool {
    0 <= i < data.len() && data[i] == 0 && (i == 0 || data[i - 1] != 0)
}

/// Number of repeat codes that a run of `len` zeros takes: one per division of
/// the remaining length by 8 until nothing remains.
pub open spec fn repeat_codes_for(len: nat) -> nat
    decreases len,
{
    if len == 0 {
        0
    } else {
        1 + repeat_codes_for(len / 8)
    }
}

/// Zeros charged one by one: the total length of the maximal zero runs shorter
/// than 3 that begin before symbol `n`.
pub open spec fn short_zeros_upto(data: Seq<u32>, n: int) -> nat
    decreases n,
{
    if n <= 0 {
        0
    } else {
        short_zeros_upto(data, n - 1) + if starts_zero_run(data, n - 1) && zero_run_len(
            data,
            n - 1,
        ) < 3 {
            zero_run_len(data, n - 1)
        } else {
            0
        }
    }
}

/// Repeat codes charged for the maximal zero runs of length 3 or more that
/// begin before symbol `n`.
pub open spec fn repeat_codes_upto(data: Seq<u32>, n: int) -> nat
    decreases n,
{
    if n <= 0 {
        0
    } else {
        repeat_codes_upto(data, n - 1) + if starts_zero_run(data, n - 1) && zero_run_len(
            data,
            n - 1,
        ) >= 3 {
            repeat_codes_for(zero_run_len(data, n - 1))
        } else {
            0
        }
    }
}

/// The code-length histogram of a histogram: per depth the number of symbols
/// of that depth, with the short zero runs added to depth 0 and the repeat
/// codes in the last bucket.
pub open spec fn depth_histogram(data: Seq<u32>) -> Seq<u32> {
    let log2total = log2_fixed(sum_counts(data)) as int;
    Seq::new(
        18,
        |d: int|
            ((if d == 0 {
                short_zeros_upto(data, data.len() as int)
            } else if d == 17 {
                repeat_codes_upto(data, data.len() as int)
            } else {
                0
            }) + depth_tally(nonzero_values(data), log2total, d)) as u32,
    )
}

/// Cost of a histogram with five or more symbols in use: three bits per repeat
/// code, the entropy of the symbols, the overhead of the code-length code, and
/// the entropy of the code-length histogram.
pub open spec fn general_cost(data: Seq<u32>) -> int {
    let log2total = log2_fixed(sum_counts(data)) as int;
    let used = nonzero_values(data);
    3 * ONE_BIT * repeat_codes_upto(data, data.len() as int) + symbol_bits(used, log2total) + (18
        + 2 * max_depth(used, log2total)) * ONE_BIT + bits_entropy(depth_histogram(data))
}

/// The larger of two numbers.
pub open spec fn max2(a: int, b: int) -> int {
    if a >= b {
        a
    } else {
        b
    }
}

/// The smaller of two numbers.
pub open spec fn min2(a: int, b: int) -> int {
    if a <= b {
        a
    } else {
        b
    }
}

/// The largest of three counts.
pub open spec fn max3(a: int, b: int, c: int) -> int {
    max2(a, max2(b, c))
}

/// The sum of the two smallest of four counts: the least sum of any pair.
pub open spec fn low_pair(a: int, b: int, c: int, d: int) -> int {
    min2(min2(min2(a + b, a + c), min2(a + d, b + c)), min2(b + d, c + d))
}

/// Cost in bits of a histogram with exactly four symbols in use. With the
/// counts in descending order `h0 >= h1 >= h2 >= h3` this is
/// `37 + 3 * (h2 + h3) + 2 * (h0 + h1) - max(h2 + h3, h0)`.
pub open spec fn four_symbol_cost(a: int, b: int, c: int, d: int) -> int {
    let low = low_pair(a, b, c, d);
    let top = max2(max2(a, b), max2(c, d));
    37 + 3 * low + 2 * (a + b + c + d - low) - max2(low, top)
}

/// Estimated cost, in fixed point, of coding the histogram.
pub open spec fn population_cost(data: Seq<u32>) -> int {
    let used = nonzero_values(data);
    if used.len() <= 1 {
        12 * ONE_BIT
    } else if used.len() == 2 {
        (20 + used[0] + used[1]) * ONE_BIT
    } else if used.len() == 3 {
        (28 + 2 * (used[0] + used[1] + used[2]) - max3(
            used[0] as int,
            used[1] as int,
            used[2] as int,
        )) * ONE_BIT
    } else if used.len() == 4 {
        four_symbol_cost(used[0] as int, used[1] as int, used[2] as int, used[3] as int) * ONE_BIT
    } else {
        general_cost(data)
    }
}

/// The sum of a prefix never exceeds the sum of the whole.
pub proof fn lemma_sum_prefix(s: Seq<u32>, n: int)
    requires
        0 <= n <= s.len(),
    ensures
        sum_counts(s.take(n)) <= sum_counts(s),
    decreases s.len() - n,
{
    if n < s.len() {
        lemma_sum_prefix(s, n + 1);
        assert(s.take(n + 1).drop_last() == s.take(n));
    } else {
        assert(s.take(n) == s);
    }
}

/// Both sums are bounded by the number of counts.
pub proof fn lemma_sum_bounds(s: Seq<u32>)
    ensures
        sum_counts(s) <= s.len() * 0xffff_ffff,
        sum_count_log2(s) <= s.len() * 0x1f_ffff_ffe0_0000,
    decreases s.len(),
{
    if s.len() > 0 {
        lemma_sum_bounds(s.drop_last());
        let c = s.last() as nat;
        vstd::arithmetic::power2::lemma2_to64();
        crate::log2::lemma_log2_upper(c, 24);
        assert(c * log2_fixed(c) <= 0xffff_ffff * 0x1f_ffff) by (nonlinear_arith)
            requires
                c <= 0xffff_ffff,
                log2_fixed(c) <= 0x1f_ffff,
        ;
    }
}

/// Neither entropy exceeds 64 bits per counted symbol.
pub proof fn lemma_entropy_upper(s: Seq<u32>)
    ensures
        shannon_entropy(s) <= bits_entropy(s) <= 0xffff_ffff_ffff_ffff * 0x40_0000,
        bits_entropy(s) >= 0,
{
    let t = wrapped_total(s);
    lemma_log2_u64(t);
    assert(t * log2_fixed(t) <= 0xffff_ffff_ffff_ffff * 0x40_0000) by (nonlinear_arith)
        requires
            t <= 0xffff_ffff_ffff_ffff,
            log2_fixed(t) <= 0x40_0000,
    ;
    assert(0 <= t * ONE_BIT <= 0xffff_ffff_ffff_ffff * 0x40_0000) by (nonlinear_arith)
        requires
            0 <= t <= 0xffff_ffff_ffff_ffff,
            ONE_BIT == 65536,
    ;
}

/// While the sum of the counts fits a word, the entropy is not negative.
pub proof fn lemma_entropy_nonnegative(s: Seq<u32>)
    requires
        sum_counts(s) <= usize::MAX,
    ensures
        shannon_entropy(s) >= 0,
{
    lemma_weighted_below_total(s, sum_counts(s));
    assert(wrapped_total(s) == sum_counts(s)) by {
        vstd::arithmetic::div_mod::lemma_small_mod(sum_counts(s), usize::MAX as nat + 1);
    }
}

proof fn lemma_weighted_below_total(s: Seq<u32>, total: nat)
    requires
        sum_counts(s) <= total,
    ensures
        sum_count_log2(s) <= sum_counts(s) * log2_fixed(total),
    decreases s.len(),
{
    if s.len() > 0 {
        lemma_weighted_below_total(s.drop_last(), total);
        let c = s.last() as nat;
        let rest = sum_counts(s.drop_last());
        lemma_log2_monotone(c, total);
        assert(c * log2_fixed(c) <= c * log2_fixed(total)) by (nonlinear_arith)
            requires
                log2_fixed(c) <= log2_fixed(total),
        ;
        assert((rest + c) * log2_fixed(total) == rest * log2_fixed(total) + c * log2_fixed(total))
            by (nonlinear_arith);
    }
}

proof fn lemma_wrapping_step(a: nat, p: nat, m: nat)
    requires
        m > 0,
        p < m,
    ensures
        (a + p) % m == if a % m + p >= m {
            a % m + p - m
        } else {
            (a % m + p) as int
        },
{
    let q = (a / m) as int;
    let r = (a % m) as int;
    vstd::arithmetic::div_mod::lemma_fundamental_div_mod(a as int, m as int);
    if r + p >= m {
        assert((a + p) as int == (q + 1) * m + (r + p - m)) by (nonlinear_arith)
            requires
                a as int == m * q + r,
        ;
        vstd::arithmetic::div_mod::lemma_fundamental_div_mod_converse(
            (a + p) as int,
            m as int,
            q + 1,
            r + p - m,
        );
    } else {
        assert((a + p) as int == q * m + (r + p)) by (nonlinear_arith)
            requires
                a as int == m * q + r,
        ;
        vstd::arithmetic::div_mod::lemma_fundamental_div_mod_converse(
            (a + p) as int,
            m as int,
            q,
            r + p,
        );
    }
}

/// A tally never exceeds the number of counts, and the depth stays in range.
pub proof fn lemma_depth_bounds(counts: Seq<u32>, log2total: int, depth: int)
    ensures
        depth_tally(counts, log2total, depth) <= counts.len(),
        1 <= max_depth(counts, log2total) <= 15,
    decreases counts.len(),
{
    if counts.len() > 0 {
        lemma_depth_bounds(counts.drop_last(), log2total, depth);
    }
}

proof fn lemma_symbol_bits_bound(counts: Seq<u32>, log2total: int)
    requires
        0 <= log2total <= u32::MAX,
    ensures
        -counts.len() * 0x1_0000_0000_0000_0000 <= symbol_bits(counts, log2total) <= counts.len()
            * 0x1_0000_0000_0000_0000,
    decreases counts.len(),
{
    if counts.len() > 0 {
        lemma_symbol_bits_bound(counts.drop_last(), log2total);
        let c = counts.last() as int;
        let l = log2total - log2_fixed(c as nat);
        lemma_log2_u64(c as nat);
        assert(-0x1_0000_0000_0000_0000 <= c * l <= 0x1_0000_0000_0000_0000) by (nonlinear_arith)
            requires
                0 <= c <= 0xffff_ffff,
                -0x1_0000_0000 <= l <= 0x1_0000_0000,
        ;
    }
}

/// The nonzero counts are positive, no more than the counts, and have the
/// same sum.
pub proof fn lemma_nonzero_values(s: Seq<u32>)
    ensures
        nonzero_values(s).len() <= s.len(),
        nonzero_values(s).len() <= sum_counts(s),
        sum_counts(nonzero_values(s)) == sum_counts(s),
        forall|k: int| 0 <= k < nonzero_values(s).len() ==> nonzero_values(s)[k] > 0,
    decreases s.len(),
{
    if s.len() > 0 {
        lemma_nonzero_values(s.drop_last());
        if s.last() > 0 {
            assert(nonzero_values(s).drop_last() == nonzero_values(s.drop_last()));
        }
    }
}

/// A prefix has no more nonzero counts than the whole.
pub proof fn lemma_nonzero_prefix(s: Seq<u32>, n: int)
    requires
        0 <= n <= s.len(),
    ensures
        nonzero_values(s.take(n)).len() <= nonzero_values(s).len(),
    decreases s.len() - n,
{
    if n < s.len() {
        lemma_nonzero_prefix(s, n + 1);
        assert(s.take(n + 1).drop_last() == s.take(n));
    } else {
        assert(s.take(n) == s);
    }
}

/// A stretch of zeros that ends at a nonzero count, or at the end, is what
/// `zero_run_len` measures from its start.
pub proof fn lemma_zero_run_extent(data: Seq<u32>, i: int, k: int)
    requires
        0 <= i <= k <= data.len(),
        forall|j: int| i <= j < k ==> data[j] == 0,
        k == data.len() || data[k] != 0,
    ensures
        zero_run_len(data, i) == k - i,
    decreases k - i,
{
    if i < k {
        lemma_zero_run_extent(data, i + 1, k);
    }
}

/// Symbols at which no zero run begins add nothing to the zero-run charges.
pub proof fn lemma_no_run_starts(data: Seq<u32>, i: int, k: int)
    requires
        0 <= i <= k,
        forall|p: int| i <= p < k ==> !starts_zero_run(data, p),
    ensures
        short_zeros_upto(data, k) == short_zeros_upto(data, i),
        repeat_codes_upto(data, k) == repeat_codes_upto(data, i),
    decreases k - i,
{
    if i < k {
        lemma_no_run_starts(data, i, k - 1);
    }
}

/// A run takes no more repeat codes than it has zeros.
pub proof fn lemma_repeat_codes_bound(len: nat)
    ensures
        repeat_codes_for(len) <= len,
    decreases len,
{
    if len > 0 {
        lemma_repeat_codes_bound(len / 8);
    }
}

proof fn lemma_sum_of_few(s: Seq<u32>)
    requires
        s.len() <= 4,
    ensures
        s.len() == 0 ==> sum_counts(s) == 0,
        s.len() == 1 ==> sum_counts(s) == s[0],
        s.len() == 2 ==> sum_counts(s) == s[0] + s[1],
        s.len() == 3 ==> sum_counts(s) == s[0] + s[1] + s[2],
        s.len() == 4 ==> sum_counts(s) == s[0] + s[1] + s[2] + s[3],
    decreases s.len(),
{
    if s.len() > 0 {
        lemma_sum_of_few(s.drop_last());
    }
}

/// Zero counts between `lo` and `hi` add nothing to the nonzero counts.
pub proof fn lemma_nonzero_zero_gap(s: Seq<u32>, lo: int, hi: int)
    requires
        0 <= lo <= hi <= s.len(),
        forall|k: int| lo <= k < hi ==> s[k] == 0,
    ensures
        nonzero_values(s.take(hi)) == nonzero_values(s.take(lo)),
    decreases hi - lo,
{
    if lo < hi {
        lemma_nonzero_zero_gap(s, lo, hi - 1);
        assert(s.take(hi).drop_last() == s.take(hi - 1));
    }
}

/// A nonzero count at `i` is the next of the nonzero counts.
pub proof fn lemma_nonzero_next(s: Seq<u32>, i: int)
    requires
        0 <= i < s.len(),
        s[i] > 0,
    ensures
        nonzero_values(s.take(i + 1)) == nonzero_values(s.take(i)).push(s[i]),
{
    assert(s.take(i + 1).drop_last() == s.take(i));
}

/// A histogram without any count costs 12 bits.
pub proof fn lemma_empty_histogram_cost(data: Seq<u32>)
    requires
        forall|i: int| 0 <= i < data.len() ==> data[i] == 0,
    ensures
        sum_counts(data) == 0,
        population_cost(data) == 12 * ONE_BIT,
{
    lemma_nonzero_zero_gap(data, 0, data.len() as int);
    assert(data.take(data.len() as int) == data);
    assert(data.take(0).len() == 0);
    lemma_nonzero_values(data);
    assert(sum_counts(nonzero_values(data)) == 0);
}

/// A histogram in which one symbol alone occurs costs 12 bits, however often
/// the symbol occurs.
pub proof fn lemma_one_symbol_cost(data: Seq<u32>, symbol: int)
    requires
        0 <= symbol < data.len(),
        data[symbol] > 0,
        forall|i: int| 0 <= i < data.len() && i != symbol ==> data[i] == 0,
    ensures
        population_cost(data) == 12 * ONE_BIT,
{
    lemma_nonzero_zero_gap(data, 0, symbol);
    lemma_nonzero_next(data, symbol);
    lemma_nonzero_zero_gap(data, symbol + 1, data.len() as int);
    assert(data.take(data.len() as int) == data);
    assert(data.take(0).len() == 0);
}

/// A histogram in which two symbols occur, `a` and `b` times, costs
/// `20 + a + b` bits.
pub proof fn lemma_two_symbol_cost(data: Seq<u32>, first: int, second: int)
    requires
        0 <= first < second < data.len(),
        data[first] > 0,
        data[second] > 0,
        forall|i: int| 0 <= i < data.len() && i != first && i != second ==> data[i] == 0,
    ensures
        population_cost(data) == (20 + data[first] + data[second]) * ONE_BIT,
{
    lemma_nonzero_zero_gap(data, 0, first);
    lemma_nonzero_next(data, first);
    lemma_nonzero_zero_gap(data, first + 1, second);
    lemma_nonzero_next(data, second);
    lemma_nonzero_zero_gap(data, second + 1, data.len() as int);
    assert(data.take(data.len() as int) == data);
    assert(data.take(0).len() == 0);
}

/// A histogram in which three symbols occur, `a`, `b` and `c` times, costs
/// `28 + 2 * (a + b + c) - max(a, b, c)` bits; with three equal counts `c`
/// that is `28 + 5 * c`.
pub proof fn lemma_three_symbol_cost(data: Seq<u32>, first: int, second: int, third: int)
    requires
        0 <= first < second < third < data.len(),
        data[first] > 0,
        data[second] > 0,
        data[third] > 0,
        forall|i: int|
            0 <= i < data.len() && i != first && i != second && i != third ==> data[i] == 0,
    ensures
        population_cost(data) == (28 + 2 * (data[first] + data[second] + data[third]) - max3(
            data[first] as int,
            data[second] as int,
            data[third] as int,
        )) * ONE_BIT,
        data[first] == data[second] && data[second] == data[third] ==> population_cost(data) == (28
            + 5 * data[first]) * ONE_BIT,
{
    lemma_nonzero_zero_gap(data, 0, first);
    lemma_nonzero_next(data, first);
    lemma_nonzero_zero_gap(data, first + 1, second);
    lemma_nonzero_next(data, second);
    lemma_nonzero_zero_gap(data, second + 1, third);
    lemma_nonzero_next(data, third);
    lemma_nonzero_zero_gap(data, third + 1, data.len() as int);
    assert(data.take(data.len() as int) == data);
    assert(data.take(0).len() == 0);
}

/// No count is above the sum of all counts.
pub proof fn lemma_count_below_sum(s: Seq<u32>, i: int)
    requires
        0 <= i < s.len(),
    ensures
        s[i] <= sum_counts(s),
    decreases s.len(),
{
    if i < s.len() - 1 {
        lemma_count_below_sum(s.drop_last(), i);
    }
}

/// Symbols that are no more frequent than the total cost no negative number
/// of bits.
pub proof fn lemma_symbol_bits_nonnegative(counts: Seq<u32>, total: nat)
    requires
        forall|i: int| 0 <= i < counts.len() ==> counts[i] <= total,
    ensures
        symbol_bits(counts, log2_fixed(total) as int) >= 0,
    decreases counts.len(),
{
    if counts.len() > 0 {
        lemma_symbol_bits_nonnegative(counts.drop_last(), total);
        let c = counts.last() as int;
        let l = log2_fixed(total) - log2_fixed(c as nat);
        assert(counts[counts.len() - 1] <= total);
        lemma_log2_monotone(c as nat, total);
        assert(c * l >= 0) by (nonlinear_arith)
            requires
                c >= 0,
                l >= 0,
        ;
    }
}

/// No histogram costs a negative number of bits.
pub proof fn lemma_population_cost_nonnegative(data: Seq<u32>)
    ensures
        population_cost(data) >= 0,
{
    let used = nonzero_values(data);
    lemma_nonzero_values(data);
    if used.len() >= 2 && used.len() <= 4 {
        lemma_sum_of_few(used);
    } else if used.len() >= 5 {
        let total = sum_counts(data);
        assert forall|i: int| 0 <= i < used.len() implies used[i] <= total by {
            lemma_count_below_sum(used, i);
        }
        lemma_symbol_bits_nonnegative(used, total);
        lemma_depth_bounds(used, log2_fixed(total) as int, 0);
        lemma_entropy_upper(depth_histogram(data));
    }
}

/// No count is deeper than the deepest.
pub proof fn lemma_max_depth_covers(counts: Seq<u32>, log2total: int, i: int)
    requires
        0 <= i < counts.len(),
    ensures
        symbol_depth(counts[i], log2total) <= max_depth(counts, log2total),
    decreases counts.len(),
{
    if i < counts.len() - 1 {
        lemma_max_depth_covers(counts.drop_last(), log2total, i);
    }
}

/// A count of at most a quarter of the total is at least two bits deep.
pub proof fn lemma_quarter_is_deep(count: u32, total: nat)
    requires
        count >= 1,
        4 * count <= total,
    ensures
        symbol_depth(count, log2_fixed(total) as int) >= 2,
{
    lemma_log2_double(count as nat);
    lemma_log2_double(2 * count as nat);
    lemma_log2_monotone(4 * count as nat, total);
}

/// With five or more symbols in use one of them is at least two bits deep, so
/// that the deepest depth is the deepest seen, not the floor of 1.
pub proof fn lemma_five_symbols_are_deep(data: Seq<u32>)
    requires
        nonzero_values(data).len() >= 5,
    ensures
        max_depth(nonzero_values(data), log2_fixed(sum_counts(data)) as int) >= 2,
{
    let used = nonzero_values(data);
    let total = sum_counts(data);
    let log2total = log2_fixed(total) as int;
    lemma_nonzero_values(data);
    lemma_sum_prefix(used, 5);
    let five = used.take(5);
    assert(five.drop_last().len() == 4);
    lemma_sum_of_few(five.drop_last());
    assert(sum_counts(five) == five[0] + five[1] + five[2] + five[3] + five[4]);
    assert forall|i: int| 0 <= i < 5 implies symbol_depth(used[i], log2total) <= max_depth(
        used,
        log2total,
    ) by {
        lemma_max_depth_covers(used, log2total, i);
    }
    if 4 * used[0] <= total {
        lemma_quarter_is_deep(used[0], total);
    } else if 4 * used[1] <= total {
        lemma_quarter_is_deep(used[1], total);
    } else if 4 * used[2] <= total {
        lemma_quarter_is_deep(used[2], total);
    } else if 4 * used[3] <= total {
        lemma_quarter_is_deep(used[3], total);
    } else {
        assert(used[4] == five[4]);
        assert(4 * used[4] <= total);
        lemma_quarter_is_deep(used[4], total);
    }
}

/// Entropy of the first `size` counts of `population`, and their total through
/// `total`.
pub fn ShannonEntropy(population: &[u32], size: usize, total: &mut usize) -> (bits: BitCost)
    requires
        size <= population@.len(),
    ensures
        *final(total) == wrapped_total(population@.take(size as int)),
        bits == shannon_entropy(population@.take(size as int)),
        sum_counts(population@.take(size as int)) <= usize::MAX ==> bits >= 0,
{
    let ghost counts = population@.take(size as int);
    let mut sum: usize = 0;
    let mut weighted: i128 = 0;
    let mut i: usize = 0;
    proof {
        assert(population@.take(0).len() == 0);
    }
    while i < size
        invariant
            i <= size <= population@.len(),
            sum == wrapped_total(population@.take(i as int)),
            weighted == sum_count_log2(population@.take(i as int)),
        decreases size - i,
    {
        let p: u32 = population[i];
        proof {
            let prev = population@.take(i as int);
            let next = population@.take(i + 1);
            assert(next.drop_last() == prev);
            assert(next.last() == p);
            lemma_wrapping_step(sum_counts(prev), p as nat, usize::MAX as nat + 1);
            lemma_sum_bounds(next);
            assert(next.len() * 0x1f_ffff_ffe0_0000 <= 0xffff_ffff_ffff_ffff * 0x1f_ffff_ffe0_0000)
                by (nonlinear_arith)
                requires
                    next.len() <= 0xffff_ffff_ffff_ffff,
            ;
        }
        sum = sum.wrapping_add(p as usize);
        weighted = weighted + (p as i128) * (FastLog2(p as u64) as i128);
        i += 1;
    }
    proof {
        assert(population@.take(size as int) == counts);
        lemma_log2_u64(sum as nat);
        assert(sum * log2_fixed(sum as nat) <= 0xffff_ffff_ffff_ffff * 0x40_0000) by (nonlinear_arith)
            requires
                sum <= 0xffff_ffff_ffff_ffff,
                log2_fixed(sum as nat) <= 0x40_0000,
        ;
        lemma_sum_bounds(counts);
        assert(counts.len() * 0x1f_ffff_ffe0_0000 <= 0xffff_ffff_ffff_ffff * 0x1f_ffff_ffe0_0000)
            by (nonlinear_arith)
            requires
                counts.len() <= 0xffff_ffff_ffff_ffff,
        ;
        if sum_counts(counts) <= usize::MAX {
            lemma_entropy_nonnegative(counts);
        }
    }
    *total = sum;
    (sum as i128) * (FastLog2(sum as u64) as i128) - weighted
}

/// Entropy of the first `size` counts, floored at one bit per counted symbol.
pub fn BitsEntropy(population: &[u32], size: usize) -> (bits: BitCost)
    requires
        size <= population@.len(),
    ensures
        bits == bits_entropy(population@.take(size as int)),
        0 <= bits <= 0xffff_ffff_ffff_ffff * 0x40_0000,
{
    proof {
        lemma_entropy_upper(population@.take(size as int));
    }
    let mut sum: usize = 0;
    let entropy = ShannonEntropy(population, size, &mut sum);
    let floor = (sum as i128) * ONE_BIT;
    if entropy < floor {
        floor
    } else {
        entropy
    }
}

/// Prices the nonzero counts `nnz_data[..nnz]` of a histogram whose total has
/// the logarithm `log2total`: adds each symbol's depth to `depth_histo`, and
/// returns the entropy of the symbols, the overhead of the code-length code and
/// the entropy of the finished depth histogram.
pub fn CostComputation(
    depth_histo: &mut [u32; 18],
    nnz_data: &[u32],
    nnz: usize,
    log2total: u32,
) -> (bits: BitCost)
    requires
        nnz <= nnz_data@.len(),
        forall|d: int| 0 <= d < 18 ==> old(depth_histo)@[d] + nnz <= u32::MAX,
    ensures
        forall|d: int|
            0 <= d < 18 ==> final(depth_histo)@[d] == old(depth_histo)@[d] + depth_tally(
                nnz_data@.take(nnz as int),
                log2total as int,
                d,
            ),
        bits == symbol_bits(nnz_data@.take(nnz as int), log2total as int) + (18 + 2 * max_depth(
            nnz_data@.take(nnz as int),
            log2total as int,
        )) * ONE_BIT + bits_entropy(final(depth_histo)@),
        -0x1_0000_0000_0000_0000_0000_0000 <= bits <= 0x2_0000_0000_0000_0000_0000_0000,
{
    let mut bits: i128 = 0;
    let mut deepest: usize = 1;
    let mut i: usize = 0;
    proof {
        assert(nnz_data@.take(0).len() == 0);
        assert(old(depth_histo)@[0] + nnz <= u32::MAX);
    }
    while i < nnz
        invariant
            i <= nnz <= nnz_data@.len(),
            nnz <= u32::MAX,
            forall|d: int| 0 <= d < 18 ==> old(depth_histo)@[d] + nnz <= u32::MAX,
            forall|d: int|
                0 <= d < 18 ==> depth_histo@[d] == old(depth_histo)@[d] + depth_tally(
                    nnz_data@.take(i as int),
                    log2total as int,
                    d,
                ),
            bits == symbol_bits(nnz_data@.take(i as int), log2total as int),
            deepest == max_depth(nnz_data@.take(i as int), log2total as int),
        decreases nnz - i,
    {
        let element: u32 = nnz_data[i];
        let log2p: i64 = log2total as i64 - FastLog2(element as u64) as i64;
        let shifted: i64 = log2p + 32768;
        let depth: usize = if shifted < 65536 {
            0
        } else if shifted >= 16 * 65536 {
            15
        } else {
            (shifted / 65536) as usize
        };
        proof {
            let prev = nnz_data@.take(i as int);
            let next = nnz_data@.take(i + 1);
            assert(next.drop_last() == prev);
            assert(next.last() == element);
            assert(depth == symbol_depth(element, log2total as int));
            lemma_symbol_bits_bound(next, log2total as int);
            assert(next.len() * 0x1_0000_0000_0000_0000 <= 0xffff_ffff * 0x1_0000_0000_0000_0000)
                by (nonlinear_arith)
                requires
                    next.len() <= 0xffff_ffff,
            ;
            assert forall|d: int| 0 <= d < 18 implies depth_tally(next, log2total as int, d)
                <= next.len() by {
                lemma_depth_bounds(next, log2total as int, d);
            }
            lemma_depth_bounds(prev, log2total as int, depth as int);
            lemma_symbol_bits_bound(prev, log2total as int);
            assert(prev.len() * 0x1_0000_0000_0000_0000 <= 0xffff_ffff * 0x1_0000_0000_0000_0000)
                by (nonlinear_arith)
                requires
                    prev.len() <= 0xffff_ffff,
            ;
            assert(-0x1_0000_0000_0000_0000 <= element * log2p <= 0x1_0000_0000_0000_0000)
                by (nonlinear_arith)
                requires
                    0 <= element <= 0xffff_ffff,
                    -0x1_0000_0000 <= log2p <= 0x1_0000_0000,
            ;
        }
        bits = bits + (element as i128) * (log2p as i128);
        if depth > deepest {
            deepest = depth;
        }
        depth_histo[depth] = depth_histo[depth] + 1;
        i += 1;
    }
    proof {
        lemma_depth_bounds(nnz_data@.take(nnz as int), log2total as int, 0);
        lemma_symbol_bits_bound(nnz_data@.take(nnz as int), log2total as int);
        assert(nnz * 0x1_0000_0000_0000_0000 <= 0xffff_ffff * 0x1_0000_0000_0000_0000)
            by (nonlinear_arith)
            requires
                nnz <= 0xffff_ffff,
        ;
        lemma_sum_bounds(depth_histo@);
        assert(depth_histo@.take(18) == depth_histo@);
    }
    bits = bits + ((18 + 2 * deepest) as i128) * ONE_BIT;
    bits = bits + BitsEntropy(depth_histo.as_slice(), BROTLI_CODE_LENGTH_CODES);
    bits
}

/// Finds the first symbols in use, up to five of them: their positions go to
/// `s` and their number is returned.
fn first_symbols(data: &[u32], s: &mut [usize; 5]) -> (count: usize)
    ensures
        count <= 5,
        count < 5 ==> nonzero_values(data@).len() == count,
        count == 5 ==> nonzero_values(data@).len() >= 5,
        forall|k: int|
            #![trigger final(s)@[k]]
            0 <= k < count && count < 5 ==> final(s)@[k] < data@.len() && data@[final(s)@[k] as int]
                == nonzero_values(data@)[k],
{
    let data_size: usize = data.len();
    let mut count: usize = 0;
    let mut i: usize = 0;
    proof {
        assert(data@.take(0).len() == 0);
    }
    while i < data_size && count < 5
        invariant
            i <= data_size == data@.len(),
            count <= 5,
            nonzero_values(data@.take(i as int)).len() == count,
            forall|k: int|
                #![trigger s@[k]]
                0 <= k < count ==> s@[k] < i && data@[s@[k] as int] == nonzero_values(
                    data@.take(i as int),
                )[k],
        decreases data_size - i,
    {
        let ghost before = nonzero_values(data@.take(i as int));
        proof {
            assert(data@.take(i + 1).drop_last() == data@.take(i as int));
            assert(data@.take(i + 1).last() == data@[i as int]);
        }
        if data[i] > 0 {
            let ghost earlier = s@;
            s[count] = i;
            count = count + 1;
            proof {
                let after = nonzero_values(data@.take(i + 1));
                assert(after == before.push(data@[i as int]));
                assert(s@ == earlier.update(count - 1, i));
                assert forall|k: int| 0 <= k < count implies s@[k] < i + 1 && data@[s@[k] as int]
                    == after[k] by {
                    if k < count - 1 {
                        assert(s@[k] == earlier[k]);
                        assert(after[k] == before[k]);
                    }
                }
            }
        } else {
            proof {
                assert(nonzero_values(data@.take(i + 1)) == before);
                assert forall|k: int| 0 <= k < count implies s@[k] < i + 1 && data@[s@[k] as int]
                    == nonzero_values(data@.take(i + 1))[k] by {
                    assert(s@[k] < i);
                }
            }
        }
        i = i + 1;
    }
    proof {
        if count < 5 {
            assert(data@.take(i as int) == data@);
        } else {
            lemma_nonzero_prefix(data@, i as int);
        }
    }
    count
}

/// Cost of a histogram whose four symbols in use have the counts `histo`.
fn four_symbol_bits(histo: [u32; 4]) -> (bits: BitCost)
    ensures
        bits == four_symbol_cost(
            histo@[0] as int,
            histo@[1] as int,
            histo@[2] as int,
            histo@[3] as int,
        ) * ONE_BIT,
{
    let mut histo = histo;
    let ghost a = histo@[0] as int;
    let ghost b = histo@[1] as int;
    let ghost c = histo@[2] as int;
    let ghost d = histo@[3] as int;
    let mut i: usize = 0;
    while i < 4
        invariant
            i <= 4,
            low_pair(histo@[0] as int, histo@[1] as int, histo@[2] as int, histo@[3] as int)
                == low_pair(a, b, c, d),
            max2(max2(histo@[0] as int, histo@[1] as int), max2(histo@[2] as int, histo@[3] as int))
                == max2(max2(a, b), max2(c, d)),
            histo@[0] + histo@[1] + histo@[2] + histo@[3] == a + b + c + d,
            forall|p: int, q: int| 0 <= p < i && p < q < 4 ==> histo@[p] >= histo@[q],
        decreases 4 - i,
    {
        let mut j: usize = i + 1;
        while j < 4
            invariant
                i < 4,
                i < j <= 4,
                low_pair(histo@[0] as int, histo@[1] as int, histo@[2] as int, histo@[3] as int)
                    == low_pair(a, b, c, d),
                max2(
                    max2(histo@[0] as int, histo@[1] as int),
                    max2(histo@[2] as int, histo@[3] as int),
                ) == max2(max2(a, b), max2(c, d)),
                histo@[0] + histo@[1] + histo@[2] + histo@[3] == a + b + c + d,
                forall|p: int, q: int| 0 <= p < i && p < q < 4 ==> histo@[p] >= histo@[q],
                forall|q: int| i < q < j ==> histo@[i as int] >= histo@[q],
            decreases 4 - j,
        {
            if histo[j] > histo[i] {
                let swap_tmp: u32 = histo[j];
                histo[j] = histo[i];
                histo[i] = swap_tmp;
            }
            j = j + 1;
        }
        i = i + 1;
    }
    let h23: i128 = histo[2] as i128 + histo[3] as i128;
    let histomax: i128 = if h23 >= histo[0] as i128 {
        h23
    } else {
        histo[0] as i128
    };
    proof {
        assert(histo@[0] >= histo@[1] >= histo@[2] >= histo@[3]);
    }
    (37 + 3 * h23 + 2 * (histo[0] as i128 + histo[1] as i128) - histomax) * ONE_BIT
}

/// Walks the histogram once: collects the nonzero counts in `nnz_data`,
/// charges the zero runs to `depth_histo`, and returns the bits that the repeat
/// codes cost.
fn scan_symbols_and_zero_runs(
    data: &[u32],
    depth_histo: &mut [u32; 18],
    nnz_data: &mut Vec<u32>,
) -> (bits: BitCost)
    requires
        data@.len() <= u32::MAX,
        old(nnz_data)@.len() == 0,
        forall|d: int| 0 <= d < 18 ==> old(depth_histo)@[d] == 0,
    ensures
        final(nnz_data)@ == nonzero_values(data@),
        final(depth_histo)@[0] == short_zeros_upto(data@, data@.len() as int),
        final(depth_histo)@[17] == repeat_codes_upto(data@, data@.len() as int),
        forall|d: int| 1 <= d < 17 ==> final(depth_histo)@[d] == 0,
        bits == 3 * 65536 * repeat_codes_upto(data@, data@.len() as int),
        short_zeros_upto(data@, data@.len() as int) + repeat_codes_upto(data@, data@.len() as int)
            + nonzero_values(data@).len() <= data@.len(),
{
    let data_size: usize = data.len();
    let mut bits: i128 = 0;
    let mut i: usize = 0;
    proof {
        assert(data@.take(0).len() == 0);
        assert(nnz_data@ == nonzero_values(data@.take(0)));
    }
    while i < data_size
        invariant
            i <= data_size == data@.len() <= u32::MAX,
            i == 0 || i == data_size || data@[i - 1] != 0 || data@[i as int] != 0,
            nnz_data@ == nonzero_values(data@.take(i as int)),
            depth_histo@[0] == short_zeros_upto(data@, i as int),
            depth_histo@[17] == repeat_codes_upto(data@, i as int),
            forall|d: int| 1 <= d < 17 ==> depth_histo@[d] == 0,
            bits == 196608 * repeat_codes_upto(data@, i as int),
            short_zeros_upto(data@, i as int) + repeat_codes_upto(data@, i as int) + nnz_data@.len()
                <= i,
        decreases data_size - i,
    {
        if data[i] > 0 {
            proof {
                assert(data@.take(i + 1).drop_last() == data@.take(i as int));
                assert(data@.take(i + 1).last() == data@[i as int]);
                assert(!starts_zero_run(data@, i as int));
            }
            nnz_data.push(data[i]);
            i = i + 1;
        } else {
            let mut reps: u32 = 1;
            let mut k: usize = i + 1;
            proof {
                assert(data@.take(i + 1).drop_last() == data@.take(i as int));
                assert(data@.take(i + 1).last() == data@[i as int]);
            }
            while k < data_size && data[k] == 0
                invariant
                    i < k <= data_size == data@.len() <= u32::MAX,
                    reps == k - i,
                    forall|j: int| i <= j < k ==> data@[j] == 0,
                    nnz_data@ == nonzero_values(data@.take(k as int)),
                decreases data_size - k,
            {
                proof {
                    assert(data@.take(k + 1).drop_last() == data@.take(k as int));
                    assert(data@.take(k + 1).last() == data@[k as int]);
                }
                reps = reps + 1;
                k = k + 1;
            }
            proof {
                lemma_zero_run_extent(data@, i as int, k as int);
                assert(starts_zero_run(data@, i as int));
                assert forall|p: int| i + 1 <= p < k implies !starts_zero_run(data@, p) by {
                    assert(data@[p - 1] == 0);
                }
                lemma_no_run_starts(data@, i + 1, k as int);
                lemma_repeat_codes_bound(reps as nat);
            }
            if reps < 3 {
                depth_histo[0] = depth_histo[0] + reps;
            } else {
                let mut remaining: u32 = reps;
                let mut depth_histo_adds: u32 = 0;
                while remaining > 0
                    invariant
                        depth_histo_adds + repeat_codes_for(remaining as nat) == repeat_codes_for(
                            reps as nat,
                        ),
                        repeat_codes_for(reps as nat) <= reps,
                        bits == 196608 * (repeat_codes_upto(data@, i as int) + depth_histo_adds),
                        repeat_codes_upto(data@, i as int) <= u32::MAX,
                    decreases remaining,
                {
                    depth_histo_adds = depth_histo_adds + 1;
                    bits = bits + 3 * ONE_BIT;
                    remaining = remaining / 8;
                }
                depth_histo[BROTLI_REPEAT_ZERO_CODE_LENGTH] = depth_histo[BROTLI_REPEAT_ZERO_CODE_LENGTH]
                    + depth_histo_adds;
            }
            i = k;
        }
    }
    proof {
        assert(data@.take(data_size as int) == data@);
    }
    bits
}

/// Estimated number of bits, in fixed point, that coding the histogram takes:
/// closed forms for up to four symbols in use, and otherwise the entropy of
/// the counts plus the cost of describing the code.
pub fn BrotliPopulationCost(histogram: &Histogram) -> (bits: BitCost)
    ensures
        bits == population_cost(histogram@),
        bits >= 0,
{
    proof {
        lemma_population_cost_nonnegative(histogram@);
    }
    let data = histogram.slice();
    let total: usize = histogram.total_count();
    proof {
        lemma_nonzero_values(data@);
    }
    if total == 0 {
        return 12 * ONE_BIT;
    }
    let mut s: [usize; 5] = [0;5];
    let count = first_symbols(data, &mut s);
    proof {
        if count <= 4 {
            lemma_sum_of_few(nonzero_values(data@));
        }
    }
    if count == 1 {
        return 12 * ONE_BIT;
    }
    if count == 2 {
        return (20 + total as i128) * ONE_BIT;
    }
    if count == 3 {
        let histo0: u32 = data[s[0]];
        let histo1: u32 = data[s[1]];
        let histo2: u32 = data[s[2]];
        let histomax: u32 = if histo0 >= histo1 && histo0 >= histo2 {
            histo0
        } else if histo1 >= histo2 {
            histo1
        } else {
            histo2
        };
        return (28 + 2 * (histo0 as i128 + histo1 as i128 + histo2 as i128) - histomax as i128)
            * ONE_BIT;
    }
    if count == 4 {
        let histo: [u32; 4] = [data[s[0]], data[s[1]], data[s[2]], data[s[3]]];
        return four_symbol_bits(histo);
    }
    let mut nnz_data: Vec<u32> = Vec::new();
    let mut depth_histo: [u32; 18] = [0;18];
    let log2total: u32 = FastLog2(total as u64);
    let bits = scan_symbols_and_zero_runs(data, &mut depth_histo, &mut nnz_data);
    proof {
        assert(data@.len() <= u32::MAX);
        assert(repeat_codes_upto(data@, data@.len() as int) <= data@.len());
        assert(bits == 196608 * repeat_codes_upto(data@, data@.len() as int));
        assert(nnz_data@.take(nnz_data@.len() as int) == nnz_data@);
    }
    let tail = CostComputation(&mut depth_histo, nnz_data.as_slice(), nnz_data.len(), log2total);
    proof {
        assert(depth_histo@ =~= depth_histogram(data@));
        assert(0 <= bits <= 196608 * 0xffff_ffff);
    }
    bits + tail
}

} // verus!
