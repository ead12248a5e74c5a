//! Fixed-point base-2 logarithm.
//!
//! Every cost in this crate is an integer number of `1 / 65536` bits. The
//! logarithm is table driven: arguments below 256 are looked up directly;
//! larger arguments are halved until they fit, each halving adding one bit,
//! and what the halvings cut off is made up for by a straight line between
//! two neighbouring entries of the table.
use vstd::prelude::*;
use vstd::arithmetic::power2::pow2;

verus! {

/// The fixed-point representation of one bit.
pub const ONE_BIT: i128 = 65536;

/// `LOG2_TABLE[i]` is `log2(i)` in fixed point, rounded to nearest, for
/// `1 <= i < 256`; entry 0 is 0.
pub const LOG2_TABLE: [u32; 256] = [
    0, 0, 65536, 103872, 131072, 152170, 169408, 183983,
    196608, 207744, 217706, 226717, 234944, 242512, 249519, 256042,
    262144, 267876, 273280, 278392, 283242, 287855, 292253, 296456,
    300480, 304340, 308048, 311616, 315055, 318373, 321578, 324678,
    327680, 330589, 333412, 336153, 338816, 341407, 343928, 346384,
    348778, 351113, 353391, 355616, 357789, 359914, 361992, 364026,
    366016, 367966, 369876, 371748, 373584, 375385, 377152, 378887,
    380591, 382264, 383909, 385525, 387114, 388677, 390214, 391727,
    393216, 394682, 396125, 397547, 398948, 400328, 401689, 403030,
    404352, 405656, 406943, 408212, 409464, 410700, 411920, 413125,
    414314, 415488, 416649, 417795, 418927, 420046, 421152, 422245,
    423325, 424394, 425450, 426495, 427528, 428550, 429562, 430562,
    431552, 432532, 433502, 434462, 435412, 436353, 437284, 438206,
    439120, 440025, 440921, 441809, 442688, 443560, 444423, 445279,
    446127, 446967, 447800, 448626, 449445, 450256, 451061, 451859,
    452650, 453435, 454213, 454985, 455750, 456510, 457263, 458010,
    458752, 459488, 460218, 460942, 461661, 462375, 463083, 463786,
    464484, 465177, 465864, 466547, 467225, 467898, 468566, 469229,
    469888, 470543, 471192, 471838, 472479, 473115, 473748, 474376,
    475000, 475620, 476236, 476848, 477456, 478060, 478661, 479257,
    479850, 480439, 481024, 481606, 482185, 482759, 483331, 483898,
    484463, 485024, 485582, 486136, 486688, 487236, 487781, 488323,
    488861, 489397, 489930, 490459, 490986, 491510, 492031, 492549,
    493064, 493577, 494086, 494593, 495098, 495599, 496098, 496594,
    497088, 497579, 498068, 498554, 499038, 499519, 499998, 500474,
    500948, 501419, 501889, 502355, 502820, 503282, 503742, 504200,
    504656, 505109, 505561, 506010, 506457, 506902, 507345, 507786,
    508224, 508661, 509096, 509528, 509959, 510388, 510815, 511240,
    511663, 512084, 512503, 512921, 513336, 513750, 514162, 514572,
    514981, 515387, 515792, 516195, 516597, 516997, 517395, 517791,
    518186, 518579, 518971, 519361, 519749, 520136, 520521, 520904,
    521286, 521667, 522046, 522423, 522799, 523173, 523546, 523918,
];

/// A cost in units of `1 / 65536` bit.
pub type BitCost = i128;

/// Number of halvings that bring `v` below 256.
pub open spec fn excess_bits(v: nat) -> nat
    decreases v,
{
    if v < 256 {
        0
    } else {
        1 + excess_bits(v / 2)
    }
}

/// Rise of the table from entry `i` to the next; past the last entry stands
/// `log2(256)`.
pub open spec fn table_step(i: int) -> int {
    if i >= 255 {
        8 * 65536 - LOG2_TABLE@[255]
    } else {
        LOG2_TABLE@[i + 1] - LOG2_TABLE@[i]
    }
}

/// The fixed-point logarithm that all cost formulas are stated in. With `s`
/// the number of halvings, `head` the argument without its low `s` bits and
/// `tail` those bits, it is
/// `s * 65536 + table[head] + (table[head + 1] - table[head]) * tail / 2^s`.
pub open spec fn log2_fixed(v: nat) -> nat {
    let scale = pow2(excess_bits(v)) as int;
    let head = v as int / scale;
    let tail = v as int % scale;
    (excess_bits(v) * 65536 + LOG2_TABLE@[head] + (table_step(head) * tail) / scale) as nat
}

/// The table is non-decreasing.
pub proof fn lemma_table_monotone(i: int, j: int)
    requires
        0 <= i <= j < 256,
    ensures
        LOG2_TABLE@[i] <= LOG2_TABLE@[j],
{
}

/// Every entry stays below eight bits, and so does the entry with its rise;
/// the upper half of the table starts at seven bits.
pub proof fn lemma_table_entry(i: int)
    requires
        0 <= i < 256,
    ensures
        LOG2_TABLE@[i] < 8 * 65536,
        LOG2_TABLE@[i] + table_step(i) <= 8 * 65536,
        0 <= table_step(i),
        i >= 1 ==> table_step(i) >= 1,
        i >= 128 ==> LOG2_TABLE@[i] >= 7 * 65536,
{
}

/// Doubling the index adds one bit.
pub proof fn lemma_table_double(i: int)
    requires
        1 <= i < 128,
    ensures
        LOG2_TABLE@[2 * i] == LOG2_TABLE@[i] + 65536,
{
}

/// The table is non-decreasing, and an entry with its rise is not above any
/// later entry.
pub proof fn lemma_table(i: int, j: int)
    requires
        0 <= i <= j < 256,
    ensures
        LOG2_TABLE@[i] <= LOG2_TABLE@[j],
        LOG2_TABLE@[j] < 8 * 65536,
        i < j ==> LOG2_TABLE@[i] + table_step(i) <= LOG2_TABLE@[j],
        LOG2_TABLE@[j] + table_step(j) <= 8 * 65536,
        0 <= table_step(i),
        i >= 1 ==> table_step(i) >= 1,
        i >= 128 ==> LOG2_TABLE@[i] >= 7 * 65536,
{
    lemma_table_monotone(i, j);
    lemma_table_entry(i);
    lemma_table_entry(j);
    if i < j {
        lemma_table_monotone(i + 1, j);
    }
}

/// What the halvings leave is between 128 and 255, unless there were none.
pub proof fn lemma_excess_bits(v: nat)
    ensures
        pow2(excess_bits(v)) >= 1,
        v < 256 ==> excess_bits(v) == 0 && pow2(excess_bits(v)) == 1,
        v >= 256 ==> excess_bits(v) >= 1 && 128 * pow2(excess_bits(v)) <= v < 256 * pow2(
            excess_bits(v),
        ),
        0 <= v as int / (pow2(excess_bits(v)) as int) <= 255,
        v >= 256 ==> v as int / (pow2(excess_bits(v)) as int) >= 128,
        0 <= v as int % (pow2(excess_bits(v)) as int) < pow2(excess_bits(v)),
    decreases v,
{
    vstd::arithmetic::power2::lemma2_to64();
    let s = excess_bits(v);
    let scale = pow2(s) as int;
    if v >= 256 {
        lemma_excess_bits(v / 2);
        vstd::arithmetic::power2::lemma_pow2_unfold(s);
        let half_scale = pow2((s - 1) as nat) as int;
        assert(scale == 2 * half_scale);
        assert(128 * scale <= v < 256 * scale);
        assert(128 <= v as int / scale <= 255) by (nonlinear_arith)
            requires
                128 * scale <= v < 256 * scale,
                scale >= 1,
        ;
    }
    assert(0 <= v as int % scale < scale);
}

/// The straight line between two entries stays below the upper entry.
proof fn lemma_line(step: int, tail: int, scale: int)
    requires
        0 <= step,
        0 <= tail < scale,
    ensures
        0 <= (step * tail) / scale <= step,
        step >= 1 ==> (step * tail) / scale < step,
{
    assert(0 <= (step * tail) / scale <= step && (step >= 1 ==> (step * tail) / scale < step))
        by (nonlinear_arith)
        requires
            0 <= step,
            0 <= tail < scale,
    ;
}

/// The logarithm lies between the table entry of the head and the next, the
/// halvings added.
pub proof fn lemma_log2_bracket(v: nat)
    ensures
        excess_bits(v) * 65536 + LOG2_TABLE@[v as int / (pow2(excess_bits(v)) as int)] <= log2_fixed(
            v,
        ) < (excess_bits(v) + 8) * 65536,
        log2_fixed(v) <= excess_bits(v) * 65536 + LOG2_TABLE@[v as int / (pow2(
            excess_bits(v),
        ) as int)] + table_step(v as int / (pow2(excess_bits(v)) as int)),
        v >= 1 ==> log2_fixed(v) < excess_bits(v) * 65536 + LOG2_TABLE@[v as int / (pow2(
            excess_bits(v),
        ) as int)] + table_step(v as int / (pow2(excess_bits(v)) as int)),
{
    lemma_excess_bits(v);
    let scale = pow2(excess_bits(v)) as int;
    let head = v as int / scale;
    let tail = v as int % scale;
    lemma_table(head, head);
    lemma_line(table_step(head), tail, scale);
    if v >= 1 && head == 0 {
        assert(v < 256);
    }
}

/// `log2_fixed` is non-decreasing.
pub proof fn lemma_log2_monotone(a: nat, b: nat)
    requires
        a <= b,
    ensures
        log2_fixed(a) <= log2_fixed(b),
{
    lemma_excess_bits(a);
    lemma_excess_bits(b);
    lemma_log2_bracket(a);
    lemma_log2_bracket(b);
    let sa = excess_bits(a);
    let sb = excess_bits(b);
    let scale_a = pow2(sa) as int;
    let scale_b = pow2(sb) as int;
    let head_a = a as int / scale_a;
    let head_b = b as int / scale_b;
    if sa > sb {
        vstd::arithmetic::power2::lemma_pow2_strictly_increases(sb, sa);
        vstd::arithmetic::power2::lemma_pow2_unfold(sa);
        if sb + 1 < sa {
            vstd::arithmetic::power2::lemma_pow2_strictly_increases(sb + 1, sa);
        }
        vstd::arithmetic::power2::lemma_pow2_unfold(sb + 1);
        assert(scale_a >= 2 * scale_b);
        assert(false);
    } else if sa < sb {
        lemma_table(128, head_b);
    } else {
        assert(head_a <= head_b) by {
            vstd::arithmetic::div_mod::lemma_div_is_ordered(a as int, b as int, scale_a);
        }
        if head_a < head_b {
            lemma_table(head_a, head_b);
            if a == 0 {
                assert(log2_fixed(a) == 0);
            }
        } else {
            let step = table_step(head_a);
            let tail_a = a as int % scale_a;
            let tail_b = b as int % scale_a;
            vstd::arithmetic::div_mod::lemma_fundamental_div_mod(a as int, scale_a);
            vstd::arithmetic::div_mod::lemma_fundamental_div_mod(b as int, scale_a);
            assert(tail_a <= tail_b);
            lemma_table(head_a, head_a);
            assert(step * tail_a <= step * tail_b) by (nonlinear_arith)
                requires
                    0 <= step,
                    tail_a <= tail_b,
            ;
            vstd::arithmetic::div_mod::lemma_div_is_ordered(step * tail_a, step * tail_b, scale_a);
        }
    }
}

/// Below 256 the logarithm is the table entry.
pub proof fn lemma_log2_small(v: nat)
    requires
        v < 256,
    ensures
        log2_fixed(v) == LOG2_TABLE@[v as int],
{
    vstd::arithmetic::power2::lemma2_to64();
    assert(excess_bits(v) == 0);
    assert(table_step(v as int) * 0 == 0);
}

/// Doubling the argument adds exactly one bit.
pub proof fn lemma_log2_double(v: nat)
    requires
        v >= 1,
    ensures
        log2_fixed(2 * v) == log2_fixed(v) + 65536,
{
    lemma_excess_bits(v);
    lemma_excess_bits(2 * v);
    vstd::arithmetic::power2::lemma2_to64();
    assert((2 * v) / 2 == v);
    if v < 128 {
        lemma_table_double(v as int);
        lemma_log2_small(v);
        lemma_log2_small(2 * v);
    } else {
        let s = excess_bits(v);
        let scale = pow2(s) as int;
        assert(excess_bits(2 * v) == s + 1);
        vstd::arithmetic::power2::lemma_pow2_unfold(s + 1);
        assert(pow2(s + 1) == 2 * scale);
        let head = v as int / scale;
        let tail = v as int % scale;
        let step = table_step(head);
        vstd::arithmetic::div_mod::lemma_fundamental_div_mod(v as int, scale);
        assert(2 * v == (2 * scale) * head + 2 * tail) by (nonlinear_arith)
            requires
                v == scale * head + tail,
        ;
        vstd::arithmetic::div_mod::lemma_fundamental_div_mod_converse(
            (2 * v) as int,
            2 * scale,
            head,
            2 * tail,
        );
        assert((2 * v) as int / (2 * scale) == head);
        assert((2 * v) as int % (2 * scale) == 2 * tail);
        lemma_table_entry(head);
        assert((step * (2 * tail)) / (2 * scale) == (step * tail) / scale) by {
            assert(step * (2 * tail) == 2 * (step * tail)) by (nonlinear_arith);
            assert(0 <= step * tail) by (nonlinear_arith)
                requires
                    0 <= step,
                    0 <= tail,
            ;
            vstd::arithmetic::div_mod::lemma_div_denominator(2 * (step * tail), 2, scale);
            assert((2 * (step * tail)) / 2 == step * tail);
        }
        assert(log2_fixed(2 * v) == (s + 1) * 65536 + LOG2_TABLE@[head] + (step * (2 * tail)) / (2
            * scale));
        assert(log2_fixed(v) == s * 65536 + LOG2_TABLE@[head] + (step * tail) / scale);
    }
}

/// The whole bits of the logarithm are those of the true logarithm: with `k`
/// of them, the argument lies between `2^k` and `2^(k + 1)`.
pub proof fn lemma_log2_whole_bits(v: nat)
    requires
        v >= 1,
    ensures
        pow2(log2_fixed(v) / 65536) <= v < 2 * pow2(log2_fixed(v) / 65536),
{
    vstd::arithmetic::power2::lemma2_to64();
    if v < 256 {
        lemma_log2_small(v);
        lemma_table_whole_bits(v as int);
    } else {
        lemma_excess_bits(v);
        lemma_log2_bracket(v);
        let s = excess_bits(v);
        let head = v as int / (pow2(s) as int);
        lemma_table_entry(head);
        assert(log2_fixed(v) / 65536 == s + 7);
        vstd::arithmetic::power2::lemma_pow2_adds(s, 7);
    }
}

proof fn lemma_table_whole_bits(i: int)
    requires
        1 <= i < 256,
    ensures
        LOG2_TABLE@[i] / 65536 == if i < 2 {
            0int
        } else if i < 4 {
            1
        } else if i < 8 {
            2
        } else if i < 16 {
            3
        } else if i < 32 {
            4
        } else if i < 64 {
            5
        } else if i < 128 {
            6
        } else {
            7
        },
{
}

/// An argument below `256 * 2^k` has a logarithm below `8 + k` bits.
pub proof fn lemma_log2_upper(v: nat, k: nat)
    requires
        v < 256 * pow2(k),
    ensures
        log2_fixed(v) < (8 + k) * 65536,
{
    lemma_excess_bits(v);
    lemma_log2_bracket(v);
    let s = excess_bits(v);
    if s > k {
        vstd::arithmetic::power2::lemma_pow2_unfold(s);
        if k + 1 < s {
            vstd::arithmetic::power2::lemma_pow2_strictly_increases(k + 1, s);
        }
        vstd::arithmetic::power2::lemma_pow2_unfold(k + 1);
        assert(false);
    }
}

/// A 64-bit argument has a logarithm below 64 bits.
pub proof fn lemma_log2_u64(v: nat)
    requires
        v <= u64::MAX,
    ensures
        log2_fixed(v) < 64 * 65536,
{
    vstd::arithmetic::power2::lemma2_to64();
    vstd::arithmetic::power2::lemma2_to64_rest();
    lemma_log2_upper(v, 56);
}

/// A 16-bit argument has a logarithm below 16 bits.
pub proof fn lemma_log2_u16(v: nat)
    requires
        v <= u16::MAX,
    ensures
        log2_fixed(v) < 16 * 65536,
{
    vstd::arithmetic::power2::lemma2_to64();
    lemma_log2_upper(v, 8);
}

/// Fixed-point `log2(v)`; zero for `v == 0`.
pub fn FastLog2(v: u64) -> (r: u32)
    ensures
        r == log2_fixed(v as nat),
        r < 64 * 65536,
{
    let mut head: u64 = v;
    let mut scale: u64 = 1;
    let mut halvings: u32 = 0;
    proof {
        lemma_log2_u64(v as nat);
        vstd::arithmetic::power2::lemma2_to64();
        vstd::arithmetic::power2::lemma2_to64_rest();
    }
    while head >= 256
        invariant
            scale == pow2(halvings as nat),
            head == v / scale,
            scale >= 1,
            scale * head <= v,
            halvings <= 56,
            excess_bits(v as nat) == halvings + excess_bits(head as nat),
        decreases head,
    {
        proof {
            vstd::arithmetic::power2::lemma2_to64_rest();
            vstd::arithmetic::div_mod::lemma_div_denominator(v as int, scale as int, 2);
            vstd::arithmetic::power2::lemma_pow2_unfold((halvings + 1) as nat);
            assert(scale * 256 <= v) by (nonlinear_arith)
                requires
                    scale * head <= v,
                    head >= 256,
                    scale >= 1,
            ;
            assert(2 * scale * (head / 2) <= scale * head) by (nonlinear_arith)
                requires
                    scale >= 1,
                    head >= 0,
            ;
            if halvings >= 56 {
                assert(scale >= 0x100_0000_0000_0000);
            }
        }
        head = head / 2;
        scale = scale * 2;
        halvings = halvings + 1;
    }
    proof {
        lemma_excess_bits(v as nat);
        lemma_table(head as int, head as int);
        lemma_line(table_step(head as int), v as int % scale as int, scale as int);
    }
    let tail: u64 = v % scale;
    let next: u32 = if head == 255 {
        8 * 65536
    } else {
        LOG2_TABLE[head as usize + 1]
    };
    let step: u32 = next - LOG2_TABLE[head as usize];
    assert(step as u128 * tail as u128 <= 0xffff_ffff * 0xffff_ffff_ffff_ffff) by (nonlinear_arith)
        requires
            step <= 0xffff_ffff,
            tail <= 0xffff_ffff_ffff_ffff,
    ;
    let line: u128 = (step as u128 * tail as u128) / scale as u128;
    halvings * 65536 + LOG2_TABLE[head as usize] + line as u32
}

/// Fixed-point `log2(v)` of a 16-bit count; zero for `v == 0`.
pub fn FastLog2u16(v: u16) -> (r: u32)
    ensures
        r == log2_fixed(v as nat),
        r < 16 * 65536,
{
    proof {
        lemma_log2_u16(v as nat);
    }
    FastLog2(v as u64)
}

} // verus!
