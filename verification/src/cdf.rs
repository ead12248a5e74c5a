//! The adaptive nibble model: rows of cumulative counts, sixteen learning
//! speeds side by side.
//!
//! A row holds 16 buckets of 16 counters. Counter `bucket * 16 + speed` is the
//! cumulative count of all nibbles up to `bucket` under learning speed `speed`.
use vstd::prelude::*;
use crate::log2::{log2_fixed, lemma_log2_monotone, lemma_log2_u16, BitCost, FastLog2u16};

verus! {

/// Number of learning speeds tracked side by side.
pub const NUM_SPEEDS_TO_TRY: usize = 16;

/// Per-observation increment of each learning speed.
pub const SPEEDS_TO_SEARCH: [u16; 16] = [
    0, 1, 1, 1, 2, 4, 8, 16, 16, 32, 64, 128, 128, 512, 1664, 1664,
];

/// Ceiling of each learning speed: a column whose top counter reaches it is
/// rescaled.
pub const MAXES_TO_SEARCH: [u16; 16] = [
    32, 32, 128, 16384, 1024, 1024, 8192, 48, 8192, 4096, 16384, 256, 16384, 16384, 16384, 16384,
];

/// What a rescale adds to each bucket before it takes a quarter away.
pub const CDF_BIAS: [u16; 16] = [1, 2, 3, 4, 5, 6, 7, 8, 9, 10, 11, 12, 13, 14, 15, 16];

/// Number of counters in a row.
pub const NIBBLE_PRIOR_SIZE: usize = 256;

/// No top counter ever exceeds this.
pub const CDF_LIMIT: u16 = 16384;

/// The weight 1 in the blend of two models: weights are counted in
/// `1 / 32768`.
pub const BLEND_ONE: u32 = 32768;

/// Weight of the stride model in the blend: a quarter.
pub const STRIDE_WEIGHT: u32 = 8192;

/// Largest cost that one nibble can add: 16 bits.
pub const MAX_NIBBLE_COST: i128 = 0x10_0000;

/// One step of learning: a nibble, learned by all speeds or by one alone.
pub enum Learning {
    /// All sixteen speeds learn the nibble.
    AllSpeeds { nibble: u8 },
    /// The one speed learns the nibble.
    OneSpeed { nibble: u8, speed: u8 },
}

impl Learning {
    /// Whether the nibble and the speed are below 16.
    pub open spec fn in_range(self) -> bool {
        match self {
            Learning::AllSpeeds { nibble } => nibble < 16,
            Learning::OneSpeed { nibble, speed } => nibble < 16 && speed < 16,
        }
    }

    /// The row after the step.
    pub open spec fn apply(self, row: Seq<u16>) -> Seq<u16> {
        match self {
            Learning::AllSpeeds { nibble } => updated_row(row, nibble as int),
            Learning::OneSpeed { nibble, speed } => updated_row_single(
                row,
                nibble as int,
                speed as int,
            ),
        }
    }
}

/// The counter of a bucket under a speed.
pub open spec fn counter(row: Seq<u16>, bucket: int, speed: int) -> int {
    row[bucket * 16 + speed] as int
}

/// The counters of one speed are positive and strictly increasing over the
/// buckets: every nibble has mass.
pub open spec fn column_positive(row: Seq<u16>, speed: int) -> bool {
    &&& counter(row, 0, speed) > 0
    &&& forall|bucket: int|
        1 <= bucket < 16 ==> #[trigger] counter(row, bucket, speed) > counter(
            row,
            bucket - 1,
            speed,
        )
}

/// Every speed of the row gives every nibble mass.
pub open spec fn row_positive(row: Seq<u16>) -> bool {
    &&& row.len() == 256
    &&& forall|speed: int| 0 <= speed < 16 ==> #[trigger] column_positive(row, speed)
}

/// A row as the model keeps it: every nibble has mass and no top counter is
/// above `CDF_LIMIT`.
pub open spec fn row_valid(row: Seq<u16>) -> bool {
    &&& row_positive(row)
    &&& forall|speed: int| 0 <= speed < 16 ==> #[trigger] counter(row, 15, speed) <= CDF_LIMIT
}

/// The value that initialisation gives the counter at position `i` of a bank:
/// `4 + 4 * bucket`.
pub open spec fn initial_counter(i: int) -> u16 {
    (4 + 4 * ((i / 16) % 16)) as u16
}

/// A freshly initialised bank of `len` counters.
pub open spec fn initial_bank(len: nat) -> Seq<u16> {
    Seq::new(len, |i: int| initial_counter(i))
}

/// Row `index` of a bank.
#[verifier::opaque]
pub open spec fn row_of(bank: Seq<u16>, index: int) -> Seq<u16> {
    bank.subrange(256 * index, 256 * index + 256)
}

/// The bank with row `index` replaced.
#[verifier::opaque]
pub open spec fn with_row(bank: Seq<u16>, index: int, row: Seq<u16>) -> Seq<u16> {
    bank.subrange(0, 256 * index) + row + bank.subrange(256 * index + 256, bank.len() as int)
}

/// Every row of the bank is valid.
#[verifier::opaque]
pub open spec fn bank_valid(bank: Seq<u16>) -> bool {
    &&& bank.len() % 256 == 0
    &&& forall|index: int| 0 <= index < bank.len() / 256 ==> row_valid(#[trigger] row_of(bank, index))
}

/// Mass of a nibble under a speed: its counter less the counter below.
pub open spec fn nibble_mass(row: Seq<u16>, nibble: int, speed: int) -> int {
    if nibble == 0 {
        counter(row, 0, speed)
    } else {
        counter(row, nibble, speed) - counter(row, nibble - 1, speed)
    }
}

/// Cost of coding `nibble` under a speed of the row:
/// `log2(total mass) - log2(mass of the nibble)`.
pub open spec fn nibble_cost(row: Seq<u16>, nibble: int, speed: int) -> int {
    log2_fixed(counter(row, 15, speed) as nat) - log2_fixed(nibble_mass(row, nibble, speed) as nat)
}

/// A quarter of the mass `stride` and three quarters of the mass `cm`.
pub open spec fn blend(stride: int, cm: int) -> int {
    (STRIDE_WEIGHT * stride + (BLEND_ONE - STRIDE_WEIGHT) * cm) / (BLEND_ONE as int)
}

/// A single cumulative distribution: positive and strictly increasing.
pub open spec fn cdf_positive(cdf: Seq<u16>) -> bool {
    &&& cdf.len() == 16
    &&& cdf[0] > 0
    &&& forall|bucket: int| 1 <= bucket < 16 ==> #[trigger] cdf[bucket] > cdf[bucket - 1]
}

/// Mass of a nibble in a single cumulative distribution.
pub open spec fn cdf_mass(cdf: Seq<u16>, nibble: int) -> int {
    if nibble == 0 {
        cdf[0] as int
    } else {
        cdf[nibble] - cdf[nibble - 1]
    }
}

/// Cost of coding `nibble` under the blend of a speed of the row with the
/// single distribution `mixing`.
pub open spec fn combined_cost(row: Seq<u16>, mixing: Seq<u16>, nibble: int, speed: int) -> int {
    log2_fixed(blend(counter(row, 15, speed), mixing[15] as int) as nat) - log2_fixed(
        blend(nibble_mass(row, nibble, speed), cdf_mass(mixing, nibble)) as nat,
    )
}

/// The distribution of one speed, taken out of the row.
pub open spec fn single_cdf(row: Seq<u16>, speed: int) -> Seq<u16> {
    Seq::new(16, |bucket: int| row[bucket * 16 + speed])
}

/// A counter after the observation of `nibble` was added: buckets from
/// `nibble` up grow by the increment of the speed.
pub open spec fn bumped(row: Seq<u16>, nibble: int, bucket: int, speed: int) -> int {
    counter(row, bucket, speed) + if bucket >= nibble {
        SPEEDS_TO_SEARCH@[speed] as int
    } else {
        0
    }
}

/// Whether the observation takes the speed to its ceiling.
pub open spec fn rescales(row: Seq<u16>, nibble: int, speed: int) -> bool {
    bumped(row, nibble, 15, speed) >= MAXES_TO_SEARCH@[speed]
}

/// A counter after the bias was added and a quarter taken away.
pub open spec fn decayed(value: int, bucket: int) -> int {
    value + (bucket + 1) - (value + (bucket + 1)) / 4
}

/// A counter after the whole update for `nibble`.
pub open spec fn updated_counter(row: Seq<u16>, nibble: int, bucket: int, speed: int) -> int {
    if rescales(row, nibble, speed) {
        decayed(bumped(row, nibble, bucket, speed), bucket)
    } else {
        bumped(row, nibble, bucket, speed)
    }
}

/// The row after all sixteen speeds have learned `nibble`.
pub open spec fn updated_row(row: Seq<u16>, nibble: int) -> Seq<u16> {
    Seq::new(256, |i: int| updated_counter(row, nibble, i / 16, i % 16) as u16)
}

/// The row after the one speed `speed` has learned `nibble`.
pub open spec fn updated_row_single(row: Seq<u16>, nibble: int, speed: int) -> Seq<u16> {
    Seq::new(
        256,
        |i: int|
            if i % 16 == speed {
                updated_counter(row, nibble, i / 16, speed) as u16
            } else {
                row[i]
            },
    )
}

/// The row after the steps, one after the other.
pub open spec fn after_updates(row: Seq<u16>, steps: Seq<Learning>) -> Seq<u16>
    decreases steps.len(),
{
    if steps.len() == 0 {
        row
    } else {
        steps.last().apply(after_updates(row, steps.drop_last()))
    }
}

/// An update keeps one column positive and below the limit.
pub proof fn lemma_update_column(row: Seq<u16>, nibble: int, speed: int)
    requires
        row.len() == 256,
        0 <= nibble < 16,
        0 <= speed < 16,
        column_positive(row, speed),
        counter(row, 15, speed) <= CDF_LIMIT,
    ensures
        updated_counter(row, nibble, 0, speed) > 0,
        forall|bucket: int|
            1 <= bucket < 16 ==> #[trigger] updated_counter(row, nibble, bucket, speed)
                > updated_counter(row, nibble, bucket - 1, speed),
        updated_counter(row, nibble, 15, speed) <= CDF_LIMIT,
        forall|bucket: int|
            0 <= bucket < 16 ==> 0 < #[trigger] bumped(row, nibble, bucket, speed) <= 18048,
{
    assert forall|bucket: int| 0 <= bucket < 16 implies #[trigger] counter(row, bucket, speed)
        >= bucket + 1 && counter(row, bucket, speed) <= counter(row, 15, speed) - (15 - bucket) by {
        lemma_column_spread(row, speed, bucket);
    }
    assert forall|bucket: int| 1 <= bucket < 16 implies #[trigger] updated_counter(
        row,
        nibble,
        bucket,
        speed,
    ) > updated_counter(row, nibble, bucket - 1, speed) by {
        assert(counter(row, bucket, speed) > counter(row, bucket - 1, speed));
    }
}

/// In a positive column, bucket `b` holds at least `b + 1` and stays that far
/// below the top.
pub proof fn lemma_column_spread(row: Seq<u16>, speed: int, bucket: int)
    requires
        row.len() == 256,
        0 <= speed < 16,
        0 <= bucket < 16,
        column_positive(row, speed),
    ensures
        counter(row, bucket, speed) >= bucket + 1,
        counter(row, bucket, speed) <= counter(row, 15, speed) - (15 - bucket),
{
    lemma_column_low(row, speed, bucket);
    lemma_column_high(row, speed, bucket);
}

proof fn lemma_column_low(row: Seq<u16>, speed: int, bucket: int)
    requires
        0 <= bucket < 16,
        column_positive(row, speed),
    ensures
        counter(row, bucket, speed) >= bucket + 1,
    decreases bucket,
{
    if bucket > 0 {
        lemma_column_low(row, speed, bucket - 1);
        assert(counter(row, bucket, speed) > counter(row, bucket - 1, speed));
    }
}

proof fn lemma_column_high(row: Seq<u16>, speed: int, bucket: int)
    requires
        0 <= bucket < 16,
        column_positive(row, speed),
    ensures
        counter(row, bucket, speed) <= counter(row, 15, speed) - (15 - bucket),
    decreases 15 - bucket,
{
    if bucket < 15 {
        lemma_column_high(row, speed, bucket + 1);
        assert(counter(row, bucket + 1, speed) > counter(row, bucket, speed));
    }
}

/// The mass invariant survives every update: a valid row stays valid.
pub proof fn lemma_update_preserves_valid(row: Seq<u16>, nibble: int)
    requires
        row_valid(row),
        0 <= nibble < 16,
    ensures
        row_valid(updated_row(row, nibble)),
{
    let next = updated_row(row, nibble);
    assert forall|speed: int| 0 <= speed < 16 implies #[trigger] column_positive(next, speed)
        && counter(next, 15, speed) <= CDF_LIMIT by {
        assert(column_positive(row, speed));
        assert(counter(row, 15, speed) <= CDF_LIMIT);
        lemma_update_column(row, nibble, speed);
        assert forall|bucket: int| 0 <= bucket < 16 implies #[trigger] counter(next, bucket, speed)
            == updated_counter(row, nibble, bucket, speed) by {
            assert((bucket * 16 + speed) / 16 == bucket);
            assert((bucket * 16 + speed) % 16 == speed);
            assert(0 < bumped(row, nibble, bucket, speed) <= 18048);
        }
        assert forall|bucket: int| 1 <= bucket < 16 implies #[trigger] counter(next, bucket, speed)
            > counter(next, bucket - 1, speed) by {
            assert(updated_counter(row, nibble, bucket, speed) > updated_counter(
                row,
                nibble,
                bucket - 1,
                speed,
            ));
        }
    }
}

/// Updating a single speed keeps a valid row valid.
pub proof fn lemma_update_single_preserves_valid(row: Seq<u16>, nibble: int, speed: int)
    requires
        row_valid(row),
        0 <= nibble < 16,
        0 <= speed < 16,
    ensures
        row_valid(updated_row_single(row, nibble, speed)),
{
    let next = updated_row_single(row, nibble, speed);
    assert(column_positive(row, speed));
    assert(counter(row, 15, speed) <= CDF_LIMIT);
    lemma_update_column(row, nibble, speed);
    assert forall|other: int, bucket: int| 0 <= other < 16 && 0 <= bucket < 16 implies #[trigger] counter(
        next,
        bucket,
        other,
    ) == if other == speed {
        updated_counter(row, nibble, bucket, speed)
    } else {
        counter(row, bucket, other)
    } by {
        assert((bucket * 16 + other) / 16 == bucket);
        assert((bucket * 16 + other) % 16 == other);
        assert(0 < bumped(row, nibble, bucket, speed) <= 18048);
    }
    assert forall|other: int| 0 <= other < 16 implies #[trigger] column_positive(next, other) by {
        assert(column_positive(row, other));
        assert forall|bucket: int| 1 <= bucket < 16 implies #[trigger] counter(next, bucket, other)
            > counter(next, bucket - 1, other) by {
            if other == speed {
                assert(updated_counter(row, nibble, bucket, speed) > updated_counter(
                    row,
                    nibble,
                    bucket - 1,
                    speed,
                ));
            } else {
                assert(counter(row, bucket, other) > counter(row, bucket - 1, other));
            }
        }
    }
    assert forall|other: int| 0 <= other < 16 implies #[trigger] counter(next, 15, other)
        <= CDF_LIMIT by {
        assert(counter(row, 15, other) <= CDF_LIMIT);
    }
}

/// Whatever a valid row learns, and however often, under every speed each
/// bucket stays above the bucket before it, and the first above zero.
pub proof fn lemma_updates_keep_mass(row: Seq<u16>, steps: Seq<Learning>)
    requires
        row_valid(row),
        forall|i: int| 0 <= i < steps.len() ==> steps[i].in_range(),
    ensures
        row_valid(after_updates(row, steps)),
        forall|speed: int, bucket: int|
            0 <= speed < 16 && 1 <= bucket < 16 ==> #[trigger] counter(
                after_updates(row, steps),
                bucket,
                speed,
            ) > counter(after_updates(row, steps), bucket - 1, speed),
        forall|speed: int| 0 <= speed < 16 ==> #[trigger] counter(after_updates(row, steps), 0, speed) > 0,
    decreases steps.len(),
{
    if steps.len() > 0 {
        let before = after_updates(row, steps.drop_last());
        lemma_updates_keep_mass(row, steps.drop_last());
        assert(steps.last() == steps[steps.len() - 1]);
        match steps.last() {
            Learning::AllSpeeds { nibble } => {
                lemma_update_preserves_valid(before, nibble as int);
            },
            Learning::OneSpeed { nibble, speed } => {
                lemma_update_single_preserves_valid(before, nibble as int, speed as int);
            },
        }
    }
    let last = after_updates(row, steps);
    assert forall|speed: int, bucket: int| 0 <= speed < 16 && 1 <= bucket < 16 implies #[trigger] counter(
        last,
        bucket,
        speed,
    ) > counter(last, bucket - 1, speed) by {
        assert(column_positive(last, speed));
    }
    assert forall|speed: int| 0 <= speed < 16 implies #[trigger] counter(last, 0, speed) > 0 by {
        assert(column_positive(last, speed));
    }
}

/// A rescale keeps the order of two neighbouring buckets: what was not above
/// stays not above, and what was below stays below.
pub proof fn lemma_rescale_keeps_order(lower: int, upper: int, bucket: int)
    requires
        0 <= lower <= upper,
        1 <= bucket,
    ensures
        decayed(lower, bucket - 1) <= decayed(upper, bucket),
        lower < upper ==> decayed(lower, bucket - 1) < decayed(upper, bucket),
        decayed(upper, bucket) > 0,
{
}

/// A rescale keeps the order of a whole column: sixteen counts that do not
/// fall from bucket to bucket do not fall after the rescale either, and counts
/// that rise keep rising.
pub proof fn lemma_rescale_keeps_column_order(column: Seq<int>)
    requires
        column.len() == 16,
        0 <= column[0],
        forall|bucket: int| 1 <= bucket < 16 ==> column[bucket - 1] <= #[trigger] column[bucket],
    ensures
        forall|bucket: int|
            1 <= bucket < 16 ==> decayed(column[bucket - 1], bucket - 1) <= #[trigger] decayed(
                column[bucket],
                bucket,
            ),
        forall|bucket: int|
            1 <= bucket < 16 && column[bucket - 1] < column[bucket] ==> decayed(
                column[bucket - 1],
                bucket - 1,
            ) < #[trigger] decayed(column[bucket], bucket),
        forall|bucket: int| 0 <= bucket < 16 ==> #[trigger] decayed(column[bucket], bucket) > 0,
{
    assert forall|bucket: int| 0 <= bucket < 16 implies 0 <= #[trigger] column[bucket] by {
        lemma_column_floor(column, bucket);
    }
    assert forall|bucket: int| 1 <= bucket < 16 implies decayed(column[bucket - 1], bucket - 1)
        <= #[trigger] decayed(column[bucket], bucket) && (column[bucket - 1] < column[bucket]
        ==> decayed(column[bucket - 1], bucket - 1) < decayed(column[bucket], bucket)) by {
        assert(0 <= column[bucket - 1]);
        assert(column[bucket - 1] <= column[bucket]);
        lemma_rescale_keeps_order(column[bucket - 1], column[bucket], bucket);
    }
}

proof fn lemma_column_floor(column: Seq<int>, bucket: int)
    requires
        column.len() == 16,
        0 <= column[0],
        forall|b: int| 1 <= b < 16 ==> column[b - 1] <= #[trigger] column[b],
        0 <= bucket < 16,
    ensures
        0 <= column[bucket],
    decreases bucket,
{
    if bucket > 0 {
        lemma_column_floor(column, bucket - 1);
        assert(column[bucket - 1] <= column[bucket]);
    }
}

/// Every row of a freshly initialised bank is valid.
pub proof fn lemma_initial_bank_valid(len: nat)
    requires
        len % 256 == 0,
    ensures
        bank_valid(initial_bank(len)),
{
    reveal(bank_valid);
    reveal(row_of);
    let bank = initial_bank(len);
    assert forall|index: int| 0 <= index < bank.len() / 256 implies row_valid(
        #[trigger] row_of(bank, index),
    ) by {
        let row = row_of(bank, index);
        assert forall|speed: int| 0 <= speed < 16 implies #[trigger] column_positive(row, speed)
            && counter(row, 15, speed) <= CDF_LIMIT by {
            assert forall|bucket: int| 0 <= bucket < 16 implies #[trigger] counter(
                row,
                bucket,
                speed,
            ) == 4 + 4 * bucket by {
                let i = 256 * index + bucket * 16 + speed;
                assert(row[bucket * 16 + speed] == bank[i]);
                assert((i / 16) % 16 == bucket);
            }
            assert forall|bucket: int| 1 <= bucket < 16 implies #[trigger] counter(
                row,
                bucket,
                speed,
            ) > counter(row, bucket - 1, speed) by {
                assert(counter(row, bucket, speed) == 4 + 4 * bucket);
                assert(counter(row, bucket - 1, speed) == 4 + 4 * (bucket - 1));
            }
        }
    }
}

/// Every row of a valid bank is valid.
pub proof fn lemma_bank_row(bank: Seq<u16>, index: int)
    requires
        bank_valid(bank),
        0 <= index,
        256 * (index + 1) <= bank.len(),
    ensures
        row_valid(row_of(bank, index)),
{
    reveal(bank_valid);
}

/// Putting a row back where it came from changes nothing.
pub proof fn lemma_with_same_row(bank: Seq<u16>, index: int)
    requires
        0 <= index,
        256 * (index + 1) <= bank.len(),
    ensures
        with_row(bank, index, row_of(bank, index)) == bank,
{
    reveal(row_of);
    reveal(with_row);
    assert(with_row(bank, index, row_of(bank, index)) =~= bank);
}

/// Replacing one row by a valid row keeps a bank valid, and leaves the other
/// rows as they were.
pub proof fn lemma_with_row(bank: Seq<u16>, index: int, row: Seq<u16>)
    requires
        bank.len() % 256 == 0,
        0 <= index < bank.len() / 256,
        row.len() == 256,
    ensures
        with_row(bank, index, row).len() == bank.len(),
        row_of(with_row(bank, index, row), index) == row,
        forall|other: int|
            0 <= other < bank.len() / 256 && other != index ==> #[trigger] row_of(
                with_row(bank, index, row),
                other,
            ) == row_of(bank, other),
        bank_valid(bank) && row_valid(row) ==> bank_valid(with_row(bank, index, row)),
{
    reveal(bank_valid);
    reveal(row_of);
    reveal(with_row);
    let next = with_row(bank, index, row);
    assert(row_of(next, index) =~= row);
    assert forall|other: int| 0 <= other < bank.len() / 256 && other != index implies #[trigger] row_of(
        next,
        other,
    ) == row_of(bank, other) by {
        assert(row_of(next, other) =~= row_of(bank, other));
    }
    if bank_valid(bank) && row_valid(row) {
        assert forall|other: int| 0 <= other < next.len() / 256 implies row_valid(
            #[trigger] row_of(next, other),
        ) by {
            if other != index {
                assert(row_of(next, other) == row_of(bank, other));
            }
        }
    }
}

/// In a positive row every nibble costs between 0 and 16 bits.
pub proof fn lemma_nibble_cost_bounds(row: Seq<u16>, nibble: int, speed: int)
    requires
        row_positive(row),
        0 <= nibble < 16,
        0 <= speed < 16,
    ensures
        0 < nibble_mass(row, nibble, speed) <= counter(row, 15, speed),
        0 <= nibble_cost(row, nibble, speed) < MAX_NIBBLE_COST,
{
    assert(column_positive(row, speed));
    lemma_column_spread(row, speed, nibble);
    if nibble > 0 {
        lemma_column_spread(row, speed, nibble - 1);
        assert(counter(row, nibble, speed) > counter(row, nibble - 1, speed));
    }
    lemma_log2_monotone(nibble_mass(row, nibble, speed) as nat, counter(row, 15, speed) as nat);
    lemma_log2_u16(counter(row, 15, speed) as nat);
}

/// Blending a positive row with a positive distribution gives every nibble a
/// cost between 0 and 16 bits.
pub proof fn lemma_combined_cost_bounds(row: Seq<u16>, mixing: Seq<u16>, nibble: int, speed: int)
    requires
        row_positive(row),
        cdf_positive(mixing),
        0 <= nibble < 16,
        0 <= speed < 16,
    ensures
        0 < blend(nibble_mass(row, nibble, speed), cdf_mass(mixing, nibble)) <= blend(
            counter(row, 15, speed),
            mixing[15] as int,
        ) <= u16::MAX,
        0 <= combined_cost(row, mixing, nibble, speed) < MAX_NIBBLE_COST,
{
    lemma_nibble_cost_bounds(row, nibble, speed);
    lemma_cdf_spread(mixing, nibble);
    if nibble > 0 {
        lemma_cdf_spread(mixing, nibble - 1);
        assert(mixing[nibble] > mixing[nibble - 1]);
    }
    let low = blend(nibble_mass(row, nibble, speed), cdf_mass(mixing, nibble));
    let high = blend(counter(row, 15, speed), mixing[15] as int);
    lemma_log2_monotone(low as nat, high as nat);
    lemma_log2_u16(high as nat);
}

proof fn lemma_cdf_spread(cdf: Seq<u16>, bucket: int)
    requires
        cdf_positive(cdf),
        0 <= bucket < 16,
    ensures
        cdf[bucket] >= bucket + 1,
        cdf[bucket] <= cdf[15] - (15 - bucket),
{
    lemma_cdf_low(cdf, bucket);
    lemma_cdf_high(cdf, bucket);
}

proof fn lemma_cdf_low(cdf: Seq<u16>, bucket: int)
    requires
        cdf_positive(cdf),
        0 <= bucket < 16,
    ensures
        cdf[bucket] >= bucket + 1,
    decreases bucket,
{
    if bucket > 0 {
        lemma_cdf_low(cdf, bucket - 1);
        assert(cdf[bucket] > cdf[bucket - 1]);
    }
}

proof fn lemma_cdf_high(cdf: Seq<u16>, bucket: int)
    requires
        cdf_positive(cdf),
        0 <= bucket < 16,
    ensures
        cdf[bucket] <= cdf[15] - (15 - bucket),
    decreases 15 - bucket,
{
    if bucket < 15 {
        lemma_cdf_high(cdf, bucket + 1);
        assert(cdf[bucket + 1] > cdf[bucket]);
    }
}

/// The distribution of any speed of a positive row is positive.
pub proof fn lemma_single_cdf_positive(row: Seq<u16>, speed: int)
    requires
        row_positive(row),
        0 <= speed < 16,
    ensures
        cdf_positive(single_cdf(row, speed)),
{
    let cdf = single_cdf(row, speed);
    assert(column_positive(row, speed));
    assert(cdf[0] == counter(row, 0, speed));
    assert forall|bucket: int| 1 <= bucket < 16 implies #[trigger] cdf[bucket] > cdf[bucket - 1] by {
        assert(counter(row, bucket, speed) > counter(row, bucket - 1, speed));
    }
}

/// Whether a row is as the model keeps it: under every speed each bucket
/// above the one before, the first above zero, and the last within the limit.
pub fn is_valid_row(cdfs: &[u16]) -> (ok: bool)
    ensures
        ok == row_valid(cdfs@),
{
    if cdfs.len() != NIBBLE_PRIOR_SIZE {
        return false;
    }
    let mut speed: usize = 0;
    while speed < 16
        invariant
            cdfs@.len() == 256,
            speed <= 16,
            forall|s: int| 0 <= s < speed ==> #[trigger] column_positive(cdfs@, s),
            forall|s: int| 0 <= s < speed ==> #[trigger] counter(cdfs@, 15, s) <= CDF_LIMIT,
        decreases 16 - speed,
    {
        if cdfs[speed] == 0 || cdfs[15 * NUM_SPEEDS_TO_TRY + speed] > CDF_LIMIT {
            proof {
                assert(counter(cdfs@, 0, speed as int) == 0 || counter(cdfs@, 15, speed as int)
                    > CDF_LIMIT);
                assert(!column_positive(cdfs@, speed as int) || counter(cdfs@, 15, speed as int)
                    > CDF_LIMIT);
            }
            return false;
        }
        let mut bucket: usize = 1;
        while bucket < 16
            invariant
                cdfs@.len() == 256,
                speed < 16,
                1 <= bucket <= 16,
                forall|b: int|
                    1 <= b < bucket ==> #[trigger] counter(cdfs@, b, speed as int) > counter(
                        cdfs@,
                        b - 1,
                        speed as int,
                    ),
            decreases 16 - bucket,
        {
            if cdfs[bucket * NUM_SPEEDS_TO_TRY + speed] <= cdfs[(bucket - 1) * NUM_SPEEDS_TO_TRY
                + speed] {
                proof {
                    assert(!(counter(cdfs@, bucket as int, speed as int) > counter(
                        cdfs@,
                        bucket - 1,
                        speed as int,
                    )));
                    assert(!column_positive(cdfs@, speed as int));
                }
                return false;
            }
            bucket = bucket + 1;
        }
        speed = speed + 1;
    }
    true
}

/// Sets every counter of a bank to its initial value, `4 + 4 * bucket`.
pub fn init_cdfs(cdfs: &mut [u16])
    requires
        old(cdfs)@.len() % 256 == 0,
    ensures
        final(cdfs)@ == initial_bank(old(cdfs)@.len()),
        bank_valid(final(cdfs)@),
{
    let len: usize = cdfs.len();
    let mut total_index: usize = 0;
    while total_index < len
        invariant
            cdfs@.len() == len,
            len % 256 == 0,
            total_index % 256 == 0,
            total_index <= len,
            forall|i: int| 0 <= i < total_index ==> cdfs@[i] == initial_counter(i),
        decreases len - total_index,
    {
        let ghost start = total_index;
        let mut cdf_index: usize = 0;
        while cdf_index < 16
            invariant
                cdfs@.len() == len,
                len % 256 == 0,
                start % 256 == 0,
                start + 256 <= len,
                total_index == start + 16 * cdf_index,
                cdf_index <= 16,
                forall|i: int| 0 <= i < total_index ==> cdfs@[i] == initial_counter(i),
            decreases 16 - cdf_index,
        {
            let mut speed: usize = 0;
            while speed < 16
                invariant
                    cdfs@.len() == len,
                    speed <= 16,
                    cdf_index < 16,
                    total_index % 16 == 0,
                    total_index + 16 <= len,
                    (total_index / 16) % 16 == cdf_index,
                    forall|i: int| 0 <= i < total_index + speed ==> cdfs@[i] == initial_counter(i),
                decreases 16 - speed,
            {
                cdfs[total_index + speed] = 4 + 4 * cdf_index as u16;
                speed = speed + 1;
            }
            total_index = total_index + NUM_SPEEDS_TO_TRY;
            cdf_index = cdf_index + 1;
        }
    }
    proof {
        assert(cdfs@ =~= initial_bank(len as nat));
        lemma_initial_bank_valid(len as nat);
    }
}

/// Adds to each speed's accumulated cost what coding `nibble_u8` costs under
/// that speed of the row, as the row stands before it learns the nibble.
pub fn compute_cost(singleton_cost: &mut [BitCost; 16], cdfs: &[u16], nibble_u8: u8)
    requires
        row_positive(cdfs@),
        nibble_u8 < 16,
        forall|i: int| 0 <= i < 16 ==> old(singleton_cost)@[i] <= i128::MAX - MAX_NIBBLE_COST,
    ensures
        forall|i: int|
            0 <= i < 16 ==> final(singleton_cost)@[i] == old(singleton_cost)@[i] + nibble_cost(
                cdfs@,
                nibble_u8 as int,
                i,
            ),
        forall|i: int|
            0 <= i < 16 ==> old(singleton_cost)@[i] <= #[trigger] final(singleton_cost)@[i] < old(
                singleton_cost,
            )@[i] + MAX_NIBBLE_COST,
{
    let nibble: usize = nibble_u8 as usize;
    let mut i: usize = 0;
    while i < 16
        invariant
            i <= 16,
            nibble == nibble_u8 < 16,
            row_positive(cdfs@),
            forall|k: int| 0 <= k < 16 ==> old(singleton_cost)@[k] <= i128::MAX - MAX_NIBBLE_COST,
            forall|k: int|
                0 <= k < i ==> singleton_cost@[k] == old(singleton_cost)@[k] + nibble_cost(
                    cdfs@,
                    nibble_u8 as int,
                    k,
                ),
            forall|k: int|
                0 <= k < i ==> old(singleton_cost)@[k] <= #[trigger] singleton_cost@[k] < old(
                    singleton_cost,
                )@[k] + MAX_NIBBLE_COST,
            forall|k: int| i <= k < 16 ==> singleton_cost@[k] == old(singleton_cost)@[k],
        decreases 16 - i,
    {
        proof {
            lemma_nibble_cost_bounds(cdfs@, nibble as int, i as int);
        }
        let mut pdf: u16 = cdfs[NUM_SPEEDS_TO_TRY * nibble + i];
        if nibble_u8 != 0 {
            pdf = pdf - cdfs[NUM_SPEEDS_TO_TRY * (nibble - 1) + i];
        }
        let max: u16 = cdfs[NUM_SPEEDS_TO_TRY * 15 + i];
        let del: u32 = FastLog2u16(max) - FastLog2u16(pdf);
        singleton_cost[i] = singleton_cost[i] + del as i128;
        i = i + 1;
    }
}

/// Adds to each speed's accumulated cost what coding `nibble_u8` costs when a
/// quarter of that speed of the row is blended with three quarters of
/// `mixing_cdf`.
pub fn compute_combined_cost(
    singleton_cost: &mut [BitCost; 16],
    cdfs: &[u16],
    mixing_cdf: [u16; 16],
    nibble_u8: u8,
)
    requires
        row_positive(cdfs@),
        cdf_positive(mixing_cdf@),
        nibble_u8 < 16,
        forall|i: int| 0 <= i < 16 ==> old(singleton_cost)@[i] <= i128::MAX - MAX_NIBBLE_COST,
    ensures
        forall|i: int|
            0 <= i < 16 ==> final(singleton_cost)@[i] == old(singleton_cost)@[i] + combined_cost(
                cdfs@,
                mixing_cdf@,
                nibble_u8 as int,
                i,
            ),
        forall|i: int|
            0 <= i < 16 ==> old(singleton_cost)@[i] <= #[trigger] final(singleton_cost)@[i] < old(
                singleton_cost,
            )@[i] + MAX_NIBBLE_COST,
{
    let nibble: usize = nibble_u8 as usize;
    let mut cm_pdf: u16 = mixing_cdf[nibble];
    proof {
        lemma_cdf_spread(mixing_cdf@, nibble as int);
    }
    if nibble_u8 != 0 {
        proof {
            assert(mixing_cdf@[nibble as int] > mixing_cdf@[nibble - 1]);
        }
        cm_pdf = cm_pdf - mixing_cdf[nibble - 1];
    }
    let cm_max: u16 = mixing_cdf[15];
    let mut i: usize = 0;
    while i < 16
        invariant
            i <= 16,
            nibble == nibble_u8 < 16,
            row_positive(cdfs@),
            cdf_positive(mixing_cdf@),
            cm_pdf == cdf_mass(mixing_cdf@, nibble as int),
            cm_max == mixing_cdf@[15],
            forall|k: int| 0 <= k < 16 ==> old(singleton_cost)@[k] <= i128::MAX - MAX_NIBBLE_COST,
            forall|k: int|
                0 <= k < i ==> singleton_cost@[k] == old(singleton_cost)@[k] + combined_cost(
                    cdfs@,
                    mixing_cdf@,
                    nibble_u8 as int,
                    k,
                ),
            forall|k: int|
                0 <= k < i ==> old(singleton_cost)@[k] <= #[trigger] singleton_cost@[k] < old(
                    singleton_cost,
                )@[k] + MAX_NIBBLE_COST,
            forall|k: int| i <= k < 16 ==> singleton_cost@[k] == old(singleton_cost)@[k],
        decreases 16 - i,
    {
        proof {
            lemma_nibble_cost_bounds(cdfs@, nibble as int, i as int);
            lemma_combined_cost_bounds(cdfs@, mixing_cdf@, nibble as int, i as int);
        }
        let mut stride_pdf: u16 = cdfs[NUM_SPEEDS_TO_TRY * nibble + i];
        if nibble_u8 != 0 {
            stride_pdf = stride_pdf - cdfs[NUM_SPEEDS_TO_TRY * (nibble - 1) + i];
        }
        let stride_max: u16 = cdfs[NUM_SPEEDS_TO_TRY * 15 + i];
        let w: u32 = STRIDE_WEIGHT;
        let combined_pdf: u32 = w * (stride_pdf as u32) + (BLEND_ONE - w) * (cm_pdf as u32);
        let combined_max: u32 = w * (stride_max as u32) + (BLEND_ONE - w) * (cm_max as u32);
        let del: u32 = FastLog2u16((combined_max / BLEND_ONE) as u16) - FastLog2u16(
            (combined_pdf / BLEND_ONE) as u16,
        );
        singleton_cost[i] = singleton_cost[i] + del as i128;
        i = i + 1;
    }
}

/// Lets all sixteen speeds of the row learn `nibble_u8`: every bucket from the
/// nibble up grows by the speed's increment, and a speed whose top counter has
/// reached its ceiling is rescaled over all its buckets.
pub fn update_cdf(cdfs: &mut [u16], nibble_u8: u8)
    requires
        row_valid(old(cdfs)@),
        nibble_u8 < 16,
    ensures
        final(cdfs)@ == updated_row(old(cdfs)@, nibble_u8 as int),
        row_valid(final(cdfs)@),
{
    let ghost before = cdfs@;
    let ghost nibble = nibble_u8 as int;
    proof {
        assert forall|b: int, s: int| 0 <= b < 16 && 0 <= s < 16 implies 0 < #[trigger] bumped(
            before,
            nibble,
            b,
            s,
        ) <= 18048 by {
            assert(column_positive(before, s));
            assert(counter(before, 15, s) <= CDF_LIMIT);
            lemma_update_column(before, nibble, s);
        }
    }
    let mut i: usize = nibble_u8 as usize * NUM_SPEEDS_TO_TRY;
    while i < 256
        invariant
            cdfs@.len() == 256,
            before.len() == 256,
            0 <= nibble < 16,
            nibble * 16 <= i <= 256,
            forall|b: int, s: int|
                0 <= b < 16 && 0 <= s < 16 ==> 0 < #[trigger] bumped(before, nibble, b, s) <= 18048,
            forall|k: int|
                0 <= k < 256 ==> cdfs@[k] == if k < i {
                    bumped(before, nibble, k / 16, k % 16)
                } else {
                    before[k] as int
                },
        decreases 256 - i,
    {
        proof {
            assert(bumped(before, nibble, i as int / 16, i as int % 16) <= 18048);
        }
        cdfs[i] = cdfs[i] + SPEEDS_TO_SEARCH[i % 16];
        i = i + 1;
    }
    let mut speed: usize = 0;
    while speed < 16
        invariant
            cdfs@.len() == 256,
            before.len() == 256,
            0 <= nibble < 16,
            speed <= 16,
            forall|b: int, s: int|
                0 <= b < 16 && 0 <= s < 16 ==> 0 < #[trigger] bumped(before, nibble, b, s) <= 18048,
            forall|k: int|
                0 <= k < 256 ==> cdfs@[k] == if k % 16 < speed {
                    updated_counter(before, nibble, k / 16, k % 16)
                } else {
                    bumped(before, nibble, k / 16, k % 16)
                },
        decreases 16 - speed,
    {
        proof {
            assert(cdfs@[15 * 16 + speed] == bumped(before, nibble, 15, speed as int));
        }
        if cdfs[15 * NUM_SPEEDS_TO_TRY + speed] >= MAXES_TO_SEARCH[speed] {
            let mut bucket: usize = 0;
            while bucket < 16
                invariant
                    cdfs@.len() == 256,
                    before.len() == 256,
                    0 <= nibble < 16,
                    speed < 16,
                    bucket <= 16,
                    rescales(before, nibble, speed as int),
                    forall|b: int, s: int|
                        0 <= b < 16 && 0 <= s < 16 ==> 0 < #[trigger] bumped(before, nibble, b, s)
                            <= 18048,
                    forall|k: int|
                        0 <= k < 256 ==> cdfs@[k] == if k % 16 < speed || (k % 16 == speed && k / 16
                            < bucket) {
                            updated_counter(before, nibble, k / 16, k % 16)
                        } else {
                            bumped(before, nibble, k / 16, k % 16)
                        },
                decreases 16 - bucket,
            {
                let index: usize = bucket * NUM_SPEEDS_TO_TRY + speed;
                proof {
                    assert(index / 16 == bucket && index % 16 == speed);
                    assert(bumped(before, nibble, bucket as int, speed as int) <= 18048);
                }
                let biased: u16 = cdfs[index] + CDF_BIAS[bucket];
                assert(biased >> 2 == biased / 4) by (bit_vector);
                cdfs[index] = biased - (biased >> 2);
                bucket = bucket + 1;
            }
        }
        speed = speed + 1;
    }
    proof {
        assert forall|k: int| 0 <= k < 256 implies cdfs@[k] == updated_row(before, nibble)[k] by {
            assert(0 < bumped(before, nibble, k / 16, k % 16) <= 18048);
        }
        assert(cdfs@ =~= updated_row(before, nibble));
        lemma_update_preserves_valid(before, nibble);
    }
}

/// Lets the one speed `speed_index` of the row learn `nibble_u8`; the other
/// speeds stay as they are. `cdf_stride` is the number of counters in a bucket.
pub fn update_one_cdf(cdfs: &mut [u16], nibble_u8: u8, speed_index: usize, cdf_stride: usize)
    requires
        old(cdfs)@.len() == 16 * cdf_stride,
        row_valid(old(cdfs)@),
        nibble_u8 < 16,
        speed_index < 16,
    ensures
        final(cdfs)@ == updated_row_single(old(cdfs)@, nibble_u8 as int, speed_index as int),
        row_valid(final(cdfs)@),
{
    let ghost before = cdfs@;
    let ghost nibble = nibble_u8 as int;
    let ghost speed = speed_index as int;
    proof {
        assert(column_positive(before, speed));
        assert(counter(before, 15, speed) <= CDF_LIMIT);
        lemma_update_column(before, nibble, speed);
    }
    let mut bucket: usize = nibble_u8 as usize;
    while bucket < 16
        invariant
            cdfs@.len() == 256,
            before.len() == 256,
            cdf_stride == 16,
            0 <= nibble < 16,
            0 <= speed == speed_index < 16,
            nibble <= bucket <= 16,
            forall|b: int| 0 <= b < 16 ==> 0 < #[trigger] bumped(before, nibble, b, speed) <= 18048,
            forall|k: int|
                0 <= k < 256 ==> cdfs@[k] == if k % 16 == speed && k / 16 < bucket {
                    bumped(before, nibble, k / 16, speed)
                } else {
                    before[k] as int
                },
        decreases 16 - bucket,
    {
        let index: usize = bucket * cdf_stride + speed_index;
        proof {
            assert(index / 16 == bucket && index % 16 == speed);
            assert(bumped(before, nibble, bucket as int, speed) <= 18048);
        }
        cdfs[index] = cdfs[index] + SPEEDS_TO_SEARCH[speed_index];
        bucket = bucket + 1;
    }
    proof {
        assert(cdfs@[15 * 16 + speed] == bumped(before, nibble, 15, speed));
        assert forall|k: int| 0 <= k < 256 implies cdfs@[k] == if k % 16 == speed {
            bumped(before, nibble, k / 16, speed)
        } else {
            before[k] as int
        } by {
            assert(0 < bumped(before, nibble, k / 16, speed) <= 18048);
        }
    }
    if cdfs[15 * cdf_stride + speed_index] >= MAXES_TO_SEARCH[speed_index] {
        let mut bucket: usize = 0;
        while bucket < 16
            invariant
                cdfs@.len() == 256,
                before.len() == 256,
                cdf_stride == 16,
                0 <= nibble < 16,
                0 <= speed == speed_index < 16,
                bucket <= 16,
                rescales(before, nibble, speed),
                forall|b: int|
                    0 <= b < 16 ==> 0 < #[trigger] bumped(before, nibble, b, speed) <= 18048,
                forall|k: int|
                    0 <= k < 256 ==> cdfs@[k] == if k % 16 == speed {
                        if k / 16 < bucket {
                            updated_counter(before, nibble, k / 16, speed)
                        } else {
                            bumped(before, nibble, k / 16, speed)
                        }
                    } else {
                        before[k] as int
                    },
            decreases 16 - bucket,
        {
            let index: usize = bucket * cdf_stride + speed_index;
            proof {
                assert(index / 16 == bucket && index % 16 == speed);
                assert(bumped(before, nibble, bucket as int, speed) <= 18048);
            }
            let biased: u16 = cdfs[index] + CDF_BIAS[bucket];
            assert(biased >> 2 == biased / 4) by (bit_vector);
            cdfs[index] = biased - (biased >> 2);
            bucket = bucket + 1;
        }
    }
    proof {
        assert forall|k: int| 0 <= k < 256 implies cdfs@[k] == updated_row_single(
            before,
            nibble,
            speed,
        )[k] by {
            assert(0 < bumped(before, nibble, k / 16, speed) <= 18048);
        }
        assert(cdfs@ =~= updated_row_single(before, nibble, speed));
        lemma_update_single_preserves_valid(before, nibble, speed);
    }
}

/// Copies the distribution of the speed `index` out of a row.
pub fn extract_single_cdf(cdf_bundle: &[u16], index: usize) -> (cdf: [u16; 16])
    requires
        cdf_bundle@.len() == 256,
        index < 16,
    ensures
        cdf@ == single_cdf(cdf_bundle@, index as int),
{
    let cdf: [u16; 16] = [
        cdf_bundle[index + 0 * NUM_SPEEDS_TO_TRY],
        cdf_bundle[index + 1 * NUM_SPEEDS_TO_TRY],
        cdf_bundle[index + 2 * NUM_SPEEDS_TO_TRY],
        cdf_bundle[index + 3 * NUM_SPEEDS_TO_TRY],
        cdf_bundle[index + 4 * NUM_SPEEDS_TO_TRY],
        cdf_bundle[index + 5 * NUM_SPEEDS_TO_TRY],
        cdf_bundle[index + 6 * NUM_SPEEDS_TO_TRY],
        cdf_bundle[index + 7 * NUM_SPEEDS_TO_TRY],
        cdf_bundle[index + 8 * NUM_SPEEDS_TO_TRY],
        cdf_bundle[index + 9 * NUM_SPEEDS_TO_TRY],
        cdf_bundle[index + 10 * NUM_SPEEDS_TO_TRY],
        cdf_bundle[index + 11 * NUM_SPEEDS_TO_TRY],
        cdf_bundle[index + 12 * NUM_SPEEDS_TO_TRY],
        cdf_bundle[index + 13 * NUM_SPEEDS_TO_TRY],
        cdf_bundle[index + 14 * NUM_SPEEDS_TO_TRY],
        cdf_bundle[index + 15 * NUM_SPEEDS_TO_TRY],
    ];
    proof {
        assert(cdf@ =~= single_cdf(cdf_bundle@, index as int));
    }
    cdf
}

} // verus!
