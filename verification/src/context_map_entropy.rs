//! The two-phase search for the learning speeds under which a context map, a
//! stride model, or a blend of the two codes the literals of a stream in the
//! fewest bits.
use vstd::prelude::*;
use crate::cdf::{
    bank_valid, cdf_positive, compute_combined_cost, compute_cost, extract_single_cdf, init_cdfs,
    lemma_bank_row, lemma_combined_cost_bounds, lemma_nibble_cost_bounds,
    lemma_single_cdf_positive, lemma_with_row, lemma_with_same_row, nibble_cost, row_of,
    row_positive, row_valid, update_cdf, update_one_cdf, updated_row, updated_row_single,
    with_row, MAXES_TO_SEARCH, MAX_NIBBLE_COST, NIBBLE_PRIOR_SIZE, NUM_SPEEDS_TO_TRY,
    SPEEDS_TO_SEARCH,
};
use crate::context::compute_huffman_table_index_for_context_map;
use crate::entropy_model::{
    cm_high_index, cm_low_index, cost_slot, history_byte, min_cost_index, min_cost_index_among,
    scored, scored_combined, strategy_of, stride_high_index, stride_low_index, EntropyModel,
    CONTEXT_MAP_PRIOR_SIZE, STRIDE_PRIOR_SIZE,
};
use crate::interface::{context_type_of, Command, InputPair, PredictionModeContextMap};
use crate::log2::BitCost;
use crate::memory::{
    alloc_cell, cell_contents, cell_slice, cell_slice_mut, empty_cell, free_cell, CounterCell,
};

verus! {

/// Cost bucket of the context-map strategy.
pub const SINGLETON_CM_STRATEGY: usize = 0;

/// Cost bucket of the stride strategy.
pub const SINGLETON_STRIDE_STRATEGY: usize = 1;

/// Cost bucket of the strategy that blends the two.
pub const SINGLETON_COMBINED_STRATEGY: usize = 2;

/// A learning speed: the increment per observation and the ceiling at which
/// the counts are rescaled.
#[derive(Clone, Copy, Debug)]
pub struct SpeedAndMax(pub u16, pub u16);

/// The two learning speeds as plain pairs.
pub fn speed_to_tuple(inp: [SpeedAndMax; 2]) -> (pairs: [(u16, u16); 2])
    ensures
        pairs@[0] == (inp@[0].0, inp@[0].1),
        pairs@[1] == (inp@[1].0, inp@[1].1),
{
    [(inp[0].0, inp[0].1), (inp[1].0, inp[1].1)]
}

/// Row `index` of a bank, borrowed from it.
fn bank_row(data: &mut [u16], index: usize) -> (row: &mut [u16])
    requires
        256 * (index + 1) <= old(data)@.len(),
    ensures
        row@ == row_of(old(data)@, index as int),
        final(data)@ == with_row(old(data)@, index as int, final(row)@),
{
    proof {
        reveal(row_of);
        reveal(with_row);
        assert(data.len() <= usize::MAX);
    }
    let (_, tail) = data.split_at_mut(NIBBLE_PRIOR_SIZE * index);
    let (row, _) = tail.split_at_mut(NIBBLE_PRIOR_SIZE);
    row
}

/// The row of the stride bank that prices the low nibble.
fn get_stride_cdf_low(data: &mut [u16], stride_prior: u8, cm_prior: usize, high_nibble: u8) -> (row:
    &mut [u16])
    requires
        old(data)@.len() == STRIDE_PRIOR_SIZE,
        cm_prior < 256,
        high_nibble < 16,
    ensures
        row@ == row_of(
            old(data)@,
            stride_low_index(stride_prior as int, cm_prior as int, high_nibble as int),
        ),
        final(data)@ == with_row(
            old(data)@,
            stride_low_index(stride_prior as int, cm_prior as int, high_nibble as int),
            final(row)@,
        ),
{
    let index: usize = 1 + 2 * (cm_prior + 256 * (stride_prior as usize % 16) + 4096
        * high_nibble as usize);
    bank_row(data, index)
}

/// The row of the stride bank that prices the high nibble.
fn get_stride_cdf_high(data: &mut [u16], stride_prior: u8, cm_prior: usize) -> (row: &mut [u16])
    requires
        old(data)@.len() == STRIDE_PRIOR_SIZE,
        cm_prior < 256,
    ensures
        row@ == row_of(old(data)@, stride_high_index(stride_prior as int, cm_prior as int)),
        final(data)@ == with_row(
            old(data)@,
            stride_high_index(stride_prior as int, cm_prior as int),
            final(row)@,
        ),
{
    let index: usize = 2 * (cm_prior + 256 * stride_prior as usize);
    bank_row(data, index)
}

/// The row of the context-map bank that prices the low nibble.
fn get_cm_cdf_low(data: &mut [u16], cm_prior: usize, high_nibble: u8) -> (row: &mut [u16])
    requires
        old(data)@.len() == CONTEXT_MAP_PRIOR_SIZE,
        cm_prior < 256,
        high_nibble < 16,
    ensures
        row@ == row_of(old(data)@, cm_low_index(cm_prior as int, high_nibble as int)),
        final(data)@ == with_row(
            old(data)@,
            cm_low_index(cm_prior as int, high_nibble as int),
            final(row)@,
        ),
{
    let index: usize = (high_nibble as usize + 1) + 17 * cm_prior;
    bank_row(data, index)
}

/// The row of the context-map bank that prices the high nibble.
fn get_cm_cdf_high(data: &mut [u16], cm_prior: usize) -> (row: &mut [u16])
    requires
        old(data)@.len() == CONTEXT_MAP_PRIOR_SIZE,
        cm_prior < 256,
    ensures
        row@ == row_of(old(data)@, cm_high_index(cm_prior as int)),
        final(data)@ == with_row(old(data)@, cm_high_index(cm_prior as int), final(row)@),
{
    let index: usize = 17 * cm_prior;
    bank_row(data, index)
}

/// Position of the least of sixteen costs; of several least costs, the first.
pub fn min_cost_index_for_speed(cost: &[BitCost]) -> (best_choice: usize)
    requires
        cost@.len() == NUM_SPEEDS_TO_TRY,
    ensures
        best_choice == min_cost_index(cost@),
        best_choice < 16,
{
    let mut min_cost: BitCost = cost[0];
    let mut best_choice: usize = 0;
    let mut i: usize = 1;
    while i < NUM_SPEEDS_TO_TRY
        invariant
            cost@.len() == 16,
            1 <= i <= 16,
            0 <= best_choice < i,
            min_cost == cost@[best_choice as int],
            best_choice == min_cost_index_among(cost@, i as int),
        decreases 16 - i,
    {
        if cost[i] < min_cost {
            best_choice = i;
            min_cost = cost[i];
        }
        i = i + 1;
    }
    best_choice
}

/// The learning speed whose cost is the least.
pub fn min_cost_speed_max(cost: &[BitCost]) -> (best: SpeedAndMax)
    requires
        cost@.len() == NUM_SPEEDS_TO_TRY,
    ensures
        best.0 == SPEEDS_TO_SEARCH@[min_cost_index(cost@)],
        best.1 == MAXES_TO_SEARCH@[min_cost_index(cost@)],
{
    let best_choice = min_cost_index_for_speed(cost);
    SpeedAndMax(SPEEDS_TO_SEARCH[best_choice], MAXES_TO_SEARCH[best_choice])
}

/// The least of the sixteen costs.
pub fn min_cost_value(cost: &[BitCost]) -> (least: BitCost)
    requires
        cost@.len() == NUM_SPEEDS_TO_TRY,
    ensures
        least == cost@[min_cost_index(cost@)],
{
    let best_choice = min_cost_index_for_speed(cost);
    cost[best_choice]
}

/// The cost bucket of a strategy: the blend if `combined`, else the context
/// map if `cm`, else the stride.
pub fn cost_type_index(cm: bool, combined: bool) -> (index: usize)
    ensures
        index == strategy_of(cm, combined),
{
    if combined {
        2usize
    } else if cm {
        0usize
    } else {
        1usize
    }
}

/// The 96 costs in one row: strategy by strategy, the low nibble before the
/// high nibble, speed by speed.
pub open spec fn flat_costs(costs: [[[BitCost; 16]; 2]; 3]) -> Seq<BitCost> {
    Seq::new(96, |k: int| costs@[k / 32]@[(k / 16) % 2]@[k % 16])
}

/// Charging one strategy and nibble position leaves the other costs alone and
/// adds less than 16 bits to each of its own.
proof fn lemma_scored(
    before: Seq<BitCost>,
    after: Seq<BitCost>,
    strategy: int,
    high: int,
    row: Seq<u16>,
    nibble: int,
)
    requires
        before.len() == 96,
        after.len() == 96,
        0 <= strategy < 3,
        0 <= high < 2,
        0 <= nibble < 16,
        row_valid(row),
        forall|k: int| 0 <= k < 96 ==> #[trigger] before[k] <= i128::MAX - MAX_NIBBLE_COST,
        forall|k: int|
            0 <= k < 96 && k / 16 != strategy * 2 + high ==> #[trigger] after[k] == before[k],
        forall|i: int|
            0 <= i < 16 ==> #[trigger] after[cost_slot(strategy, high, i)] == before[cost_slot(
                strategy,
                high,
                i,
            )] + nibble_cost(row, nibble, i),
    ensures
        after == scored(before, strategy, high, row, nibble),
        forall|k: int| 0 <= k < 96 ==> before[k] <= #[trigger] after[k] < before[k] + MAX_NIBBLE_COST,
{
    assert forall|k: int| 0 <= k < 96 implies #[trigger] after[k] == scored(
        before,
        strategy,
        high,
        row,
        nibble,
    )[k] && before[k] <= after[k] < before[k] + MAX_NIBBLE_COST by {
        lemma_nibble_cost_bounds(row, nibble, k % 16);
        if k / 16 == strategy * 2 + high {
            assert(k == cost_slot(strategy, high, k % 16));
        }
    }
    assert(after =~= scored(before, strategy, high, row, nibble));
}

/// Four charges to four different groups of sixteen costs add less than 16
/// bits to any one cost.
proof fn lemma_charged_once(
    c0: Seq<BitCost>,
    c1: Seq<BitCost>,
    c2: Seq<BitCost>,
    c3: Seq<BitCost>,
    c4: Seq<BitCost>,
    g1: int,
    g2: int,
    g3: int,
    g4: int,
)
    requires
        g1 != g2 && g1 != g3 && g1 != g4 && g2 != g3 && g2 != g4 && g3 != g4,
        forall|k: int|
            0 <= k < 96 ==> c0[k] <= #[trigger] c1[k] < c0[k] + MAX_NIBBLE_COST && (k / 16 != g1
                ==> c1[k] == c0[k]),
        forall|k: int|
            0 <= k < 96 ==> c1[k] <= #[trigger] c2[k] < c1[k] + MAX_NIBBLE_COST && (k / 16 != g2
                ==> c2[k] == c1[k]),
        forall|k: int|
            0 <= k < 96 ==> c2[k] <= #[trigger] c3[k] < c2[k] + MAX_NIBBLE_COST && (k / 16 != g3
                ==> c3[k] == c2[k]),
        forall|k: int|
            0 <= k < 96 ==> c3[k] <= #[trigger] c4[k] < c3[k] + MAX_NIBBLE_COST && (k / 16 != g4
                ==> c4[k] == c3[k]),
    ensures
        forall|k: int| 0 <= k < 96 ==> c0[k] <= #[trigger] c4[k] <= c0[k] + MAX_NIBBLE_COST,
{
    assert forall|k: int| 0 <= k < 96 implies c0[k] <= #[trigger] c4[k] <= c0[k]
        + MAX_NIBBLE_COST by {
        assert(c0[k] <= c1[k]);
        assert(c1[k] <= c2[k]);
        assert(c2[k] <= c3[k]);
        assert(c3[k] <= c4[k]);
    }
}

/// Writing a literal over the oldest of the eight most recent bytes keeps the
/// ring in step with the history of the next literal.
proof fn lemma_ring_step(
    ring: Seq<u8>,
    next_ring: Seq<u8>,
    input: Seq<u8>,
    cursor: int,
    window: int,
    data: Seq<u8>,
    j: int,
)
    requires
        ring.len() == 8,
        0 <= j < data.len(),
        next_ring == ring.update(j % 8, data[j]),
        forall|d: int|
            1 <= d <= 8 ==> #[trigger] ring[(j % 8 + 8 - d) % 8] == history_byte(
                input,
                cursor,
                window,
                data,
                j,
                d,
            ),
    ensures
        forall|d: int|
            1 <= d <= 8 ==> #[trigger] next_ring[((j + 1) % 8 + 8 - d) % 8] == history_byte(
                input,
                cursor,
                window,
                data,
                j + 1,
                d,
            ),
{
    let cur = j % 8;
    let next = (j + 1) % 8;
    assert forall|d: int| 1 <= d <= 8 implies #[trigger] next_ring[(next + 8 - d) % 8]
        == history_byte(input, cursor, window, data, j + 1, d) by {
        if d == 1 {
            assert((next + 8 - 1) % 8 == cur);
        } else {
            assert((next + 8 - d) % 8 == (cur + 8 - (d - 1)) % 8);
            assert((cur + 8 - (d - 1)) % 8 != cur);
            assert(ring[(cur + 8 - (d - 1)) % 8] == history_byte(
                input,
                cursor,
                window,
                data,
                j,
                d - 1,
            ));
        }
    }
}

/// Charges a strategy and nibble position what `nibble` costs under each speed
/// of the row, then lets the row learn the nibble.
fn price_and_learn(
    costs: &mut [[[BitCost; 16]; 2]; 3],
    strategy: usize,
    high: usize,
    row: &mut [u16],
    nibble: u8,
)
    requires
        strategy < 3,
        high < 2,
        nibble < 16,
        row_valid(old(row)@),
        forall|k: int|
            0 <= k < 96 ==> #[trigger] flat_costs(*old(costs))[k] <= i128::MAX - MAX_NIBBLE_COST,
    ensures
        flat_costs(*final(costs)) == scored(
            flat_costs(*old(costs)),
            strategy as int,
            high as int,
            old(row)@,
            nibble as int,
        ),
        forall|k: int|
            0 <= k < 96 ==> flat_costs(*old(costs))[k] <= #[trigger] flat_costs(*final(costs))[k]
                < flat_costs(*old(costs))[k] + MAX_NIBBLE_COST && (k / 16 != strategy * 2 + high
                ==> flat_costs(*final(costs))[k] == flat_costs(*old(costs))[k]),
        final(row)@ == updated_row(old(row)@, nibble as int),
        row_valid(final(row)@),
{
    proof {
        assert forall|i: int| 0 <= i < 16 implies costs[strategy as int][high as int]@[i] <= i128::MAX
            - MAX_NIBBLE_COST by {
            let k = cost_slot(strategy as int, high as int, i);
            assert(flat_costs(*costs)[k] == costs[strategy as int][high as int]@[i]);
        }
    }
    compute_cost(&mut costs[strategy][high], row, nibble);
    proof {
        let before = flat_costs(*old(costs));
        let after = flat_costs(*costs);
        assert forall|k: int| 0 <= k < 96 && k / 16 != strategy * 2 + high implies #[trigger] after[k]
            == before[k] by {
            if k / 32 == strategy {
                assert((k / 16) % 2 != high);
            }
        }
        assert forall|i: int| 0 <= i < 16 implies #[trigger] after[cost_slot(
            strategy as int,
            high as int,
            i,
        )] == before[cost_slot(strategy as int, high as int, i)] + nibble_cost(
            row@,
            nibble as int,
            i,
        ) by {
            let k = cost_slot(strategy as int, high as int, i);
            assert(k / 32 == strategy && (k / 16) % 2 == high && k % 16 == i);
        }
        lemma_scored(before, after, strategy as int, high as int, row@, nibble as int);
    }
    update_cdf(row, nibble);
}

/// Charges the blended strategy at a nibble position what `nibble` costs under
/// the blend of each speed of the row with `mixing`.
fn price_combined(
    costs: &mut [[[BitCost; 16]; 2]; 3],
    high: usize,
    row: &[u16],
    mixing: [u16; 16],
    nibble: u8,
)
    requires
        high < 2,
        nibble < 16,
        row_positive(row@),
        cdf_positive(mixing@),
        forall|k: int|
            0 <= k < 96 ==> #[trigger] flat_costs(*old(costs))[k] <= i128::MAX - MAX_NIBBLE_COST,
    ensures
        flat_costs(*final(costs)) == scored_combined(
            flat_costs(*old(costs)),
            high as int,
            row@,
            mixing@,
            nibble as int,
        ),
        forall|k: int|
            0 <= k < 96 ==> flat_costs(*old(costs))[k] <= #[trigger] flat_costs(*final(costs))[k]
                < flat_costs(*old(costs))[k] + MAX_NIBBLE_COST && (k / 16 != 4 + high
                ==> flat_costs(*final(costs))[k] == flat_costs(*old(costs))[k]),
{
    proof {
        assert forall|i: int| 0 <= i < 16 implies costs[2][high as int]@[i] <= i128::MAX
            - MAX_NIBBLE_COST by {
            let k = cost_slot(2, high as int, i);
            assert(flat_costs(*costs)[k] == costs[2][high as int]@[i]);
        }
    }
    compute_combined_cost(&mut costs[SINGLETON_COMBINED_STRATEGY][high], row, mixing, nibble);
    proof {
        let before = flat_costs(*old(costs));
        let after = flat_costs(*costs);
        assert forall|k: int| 0 <= k < 96 implies #[trigger] after[k] == scored_combined(
            before,
            high as int,
            row@,
            mixing@,
            nibble as int,
        )[k] && before[k] <= after[k] < before[k] + MAX_NIBBLE_COST && (k / 16 != 4 + high
            ==> after[k] == before[k]) by {
            lemma_combined_cost_bounds(row@, mixing@, nibble as int, k % 16);
            if k / 16 == 4 + high {
                assert(k / 32 == 2 && (k / 16) % 2 == high);
            } else if k / 32 == 2 {
                assert((k / 16) % 2 != high);
            }
        }
        assert(after =~= scored_combined(before, high as int, row@, mixing@, nibble as int));
    }
}

/// Tracks what the literals of a stream cost under sixteen learning speeds at
/// once, for a context-map model, a stride model and a blend of the two.
pub struct ContextMapEntropy<'a> {
    input: InputPair<'a>,
    context_map: PredictionModeContextMap,
    block_type: u8,
    local_byte_offset: usize,
    cm_priors: CounterCell,
    stride_priors: CounterCell,
    stride_pyramid_leaves: [u8; 8],
    singleton_costs: [[[BitCost; 16]; 2]; 3],
    best_cm_speed_index_low: u8,
    best_cm_speed_index: u8,
    phase1: bool,
}

impl<'a> View for ContextMapEntropy<'a> {
    type V = EntropyModel;

    closed spec fn view(&self) -> EntropyModel {
        EntropyModel {
            input: self.input@,
            literal_context_map: self.context_map.literal_context_map@,
            prediction_modes: self.context_map.predmode_speed_and_distance_context_map@,
            block_type: self.block_type,
            cursor: self.local_byte_offset as nat,
            cm_priors: cell_contents(self.cm_priors),
            stride_priors: cell_contents(self.stride_priors),
            strides: self.stride_pyramid_leaves@,
            costs: flat_costs(self.singleton_costs),
            best_cm_speed_low: self.best_cm_speed_index_low,
            best_cm_speed_high: self.best_cm_speed_index,
            refining: self.phase1,
        }
    }
}

impl<'a> ContextMapEntropy<'a> {
    /// What holds of every tracker: see [`EntropyModel::valid`].
    pub open spec fn wf(&self) -> bool {
        self@.valid()
    }

    /// A tracker at the start of the first phase. The counters are allocated
    /// from `m16` and initialised unless `cdf_detection_quality` is 0; a
    /// tracker without counters can take any command but a run of literals
    /// that is not empty.
    pub fn new(
        m16: &mut alloc_no_stdlib::HeapAlloc<u16>,
        input: InputPair<'a>,
        stride: [u8; 8],
        prediction_mode: PredictionModeContextMap,
        cdf_detection_quality: u8,
    ) -> (tracker: Self)
        requires
            input@.len() <= usize::MAX,
        ensures
            tracker.wf(),
            tracker@ == EntropyModel::initial(
                input@,
                stride@,
                prediction_mode.literal_context_map@,
                prediction_mode.predmode_speed_and_distance_context_map@,
                cdf_detection_quality != 0,
            ),
    {
        let cdf_detect: bool = cdf_detection_quality != 0;
        let mut ret = ContextMapEntropy {
            input: input,
            context_map: prediction_mode,
            block_type: 0,
            local_byte_offset: 0,
            cm_priors: if cdf_detect {
                alloc_cell(m16, CONTEXT_MAP_PRIOR_SIZE)
            } else {
                empty_cell()
            },
            stride_priors: if cdf_detect {
                alloc_cell(m16, STRIDE_PRIOR_SIZE)
            } else {
                empty_cell()
            },
            stride_pyramid_leaves: stride,
            singleton_costs: [[[0i128;16];2];3],
            best_cm_speed_index_low: 0,
            best_cm_speed_index: 0,
            phase1: false,
        };
        if cdf_detect {
            init_cdfs(cell_slice_mut(&mut ret.cm_priors));
            init_cdfs(cell_slice_mut(&mut ret.stride_priors));
        }
        proof {
            assert(ret@.costs =~= Seq::new(96, |k: int| 0i128));
            assert(ret@.cm_priors =~= EntropyModel::initial(
                input@,
                stride@,
                prediction_mode.literal_context_map@,
                prediction_mode.predmode_speed_and_distance_context_map@,
                cdf_detect,
            ).cm_priors);
            assert(ret@.stride_priors =~= EntropyModel::initial(
                input@,
                stride@,
                prediction_mode.literal_context_map@,
                prediction_mode.predmode_speed_and_distance_context_map@,
                cdf_detect,
            ).stride_priors);
        }
        ret
    }

    /// Gives the counters back to the allocator. The tracker keeps its costs
    /// and can no longer score literals.
    pub fn free(&mut self, m16: &mut alloc_no_stdlib::HeapAlloc<u16>)
        requires
            old(self).wf(),
        ensures
            final(self).wf(),
            final(self)@ == (EntropyModel {
                cm_priors: Seq::empty(),
                stride_priors: Seq::empty(),
                ..old(self)@
            }),
    {
        let mut cm = empty_cell();
        let mut stride = empty_cell();
        core::mem::swap(&mut self.cm_priors, &mut cm);
        core::mem::swap(&mut self.stride_priors, &mut stride);
        free_cell(m16, cm);
        free_cell(m16, stride);
        proof {
            assert(self@.cm_priors =~= Seq::empty());
            assert(self@.stride_priors =~= Seq::empty());
            assert(self@.costs =~= old(self)@.costs);
        }
    }

    /// Whether the first phase is over.
    pub fn is_refining(&self) -> (refining: bool)
        ensures
            refining == self@.refining,
    {
        self.phase1
    }

    /// Whether the counters are allocated, so that literals can be scored.
    pub fn is_enabled(&self) -> (enabled: bool)
        ensures
            enabled == self@.enabled(),
    {
        cell_slice(&self.cm_priors).len() == CONTEXT_MAP_PRIOR_SIZE && cell_slice(
            &self.stride_priors,
        ).len() == STRIDE_PRIOR_SIZE
    }

    /// Position in the input that the commands so far have reached.
    pub fn byte_offset(&self) -> (cursor: usize)
        ensures
            cursor == self@.cursor,
    {
        self.local_byte_offset
    }

    /// Whether the tracker can take the command as it stands.
    pub fn accepts(&self, val: &Command) -> (ok: bool)
        requires
            self.wf(),
        ensures
            ok == self@.accepts(*val),
    {
        match val {
            Command::Copy(copy) => copy.num_bytes as usize <= usize::MAX - self.local_byte_offset,
            Command::Dict(dict) => dict.final_size as usize <= usize::MAX - self.local_byte_offset,
            Command::Literal(lit) => {
                self.local_byte_offset < self.input.len() && lit.data.len() <= usize::MAX
                    - self.local_byte_offset && (lit.data.len() == 0 || (self.is_enabled()
                    && self.context_map.literal_prediction_mode().is_some()))
            },
            _ => true,
        }
    }

    /// Closes the first phase: the context-map speeds of least cost win, the
    /// cursor goes back to the start of the stream, and the second phase
    /// begins.
    pub fn finish_phase0(&mut self)
        requires
            old(self).wf(),
            !old(self)@.refining,
        ensures
            final(self).wf(),
            final(self)@ == old(self)@.finish_phase0(),
    {
        proof {
            self.lemma_costs_of(SINGLETON_CM_STRATEGY as int, 0);
            self.lemma_costs_of(SINGLETON_CM_STRATEGY as int, 1);
        }
        let low: usize = min_cost_index_for_speed(
            self.singleton_costs[SINGLETON_CM_STRATEGY][0].as_slice(),
        );
        let high: usize = min_cost_index_for_speed(
            self.singleton_costs[SINGLETON_CM_STRATEGY][1].as_slice(),
        );
        self.best_cm_speed_index_low = low as u8;
        self.best_cm_speed_index = high as u8;
        self.local_byte_offset = 0;
        self.phase1 = true;
        proof {
            assert(self@.costs =~= old(self)@.costs);
            assert forall|k: int| 0 <= k < 96 implies 0 <= #[trigger] self@.costs[k]
                <= self@.cost_limit() by {
                assert(0 <= old(self)@.costs[k] <= old(self)@.cost_limit());
            }
        }
    }

    /// Takes the context map out of the tracker and leaves an empty one.
    pub fn take_prediction_mode(&mut self) -> (taken: PredictionModeContextMap)
        requires
            old(self).wf(),
        ensures
            final(self).wf(),
            taken.literal_context_map@ == old(self)@.literal_context_map,
            taken.predmode_speed_and_distance_context_map@ == old(self)@.prediction_modes,
            final(self)@ == (EntropyModel {
                literal_context_map: Seq::empty(),
                prediction_modes: Seq::empty(),
                ..old(self)@
            }),
    {
        let mut taken = PredictionModeContextMap {
            literal_context_map: Vec::new(),
            predmode_speed_and_distance_context_map: Vec::new(),
        };
        core::mem::swap(&mut self.context_map, &mut taken);
        proof {
            assert(self@.literal_context_map =~= Seq::empty());
            assert(self@.prediction_modes =~= Seq::empty());
            assert(self@.costs =~= old(self)@.costs);
        }
        taken
    }

    /// The context map in force, to read or to change.
    pub fn prediction_mode_mut(&mut self) -> (context_map: &mut PredictionModeContextMap)
        requires
            old(self).wf(),
        ensures
            context_map.literal_context_map@ == old(self)@.literal_context_map,
            context_map.predmode_speed_and_distance_context_map@ == old(self)@.prediction_modes,
            final(self).wf(),
            final(self)@ == (EntropyModel {
                literal_context_map: final(context_map).literal_context_map@,
                prediction_modes: final(context_map).predmode_speed_and_distance_context_map@,
                ..old(self)@
            }),
    {
        &mut self.context_map
    }

    /// Takes note of literals outside the command stream. Nothing is tracked
    /// this way: the tracker stays as it is.
    #[inline]
    pub fn track_cdf_speed(
        &mut self,
        _data: &[u8],
        _prev_byte: u8,
        _prev_prev_byte: u8,
        _block_type: u8,
    )
        ensures
            *final(self) == *old(self),
    {
    }

    /// For the low and the high nibble, the speed of least accumulated cost
    /// under a strategy, and that cost.
    pub fn best_singleton_speeds(&self, cm: bool, combined: bool) -> (best: (
        [SpeedAndMax; 2],
        [BitCost; 2],
    ))
        ensures
            forall|high: int|
                0 <= high < 2 ==> {
                    let costs = #[trigger] self@.costs_of(strategy_of(cm, combined), high);
                    &&& best.0@[high].0 == SPEEDS_TO_SEARCH@[min_cost_index(costs)]
                    &&& best.0@[high].1 == MAXES_TO_SEARCH@[min_cost_index(costs)]
                    &&& best.1@[high] == costs[min_cost_index(costs)]
                },
    {
        let cost_type_index: usize = cost_type_index(cm, combined);
        proof {
            self.lemma_costs_of(cost_type_index as int, 0);
            self.lemma_costs_of(cost_type_index as int, 1);
        }
        let mut ret_cost: [BitCost; 2] = [
            self.singleton_costs[cost_type_index][0][0],
            self.singleton_costs[cost_type_index][1][0],
        ];
        let mut best_indexes: [usize; 2] = [0, 0];
        let mut speed_index: usize = 1;
        while speed_index < NUM_SPEEDS_TO_TRY
            invariant
                1 <= speed_index <= 16,
                cost_type_index < 3,
                forall|high: int|
                    0 <= high < 2 ==> {
                        let costs = self.singleton_costs@[cost_type_index as int]@[high]@;
                        &&& #[trigger] best_indexes@[high] == min_cost_index_among(
                            costs,
                            speed_index as int,
                        )
                        &&& best_indexes@[high] < speed_index
                        &&& ret_cost@[high] == costs[best_indexes@[high] as int]
                    },
            decreases 16 - speed_index,
        {
            let mut highness: usize = 0;
            while highness < 2
                invariant
                    1 <= speed_index < 16,
                    cost_type_index < 3,
                    highness <= 2,
                    forall|high: int|
                        0 <= high < 2 ==> {
                            let costs = self.singleton_costs@[cost_type_index as int]@[high]@;
                            &&& #[trigger] best_indexes@[high] == min_cost_index_among(
                                costs,
                                if high < highness {
                                    speed_index + 1
                                } else {
                                    speed_index as int
                                },
                            )
                            &&& best_indexes@[high] <= speed_index
                            &&& ret_cost@[high] == costs[best_indexes@[high] as int]
                        },
                decreases 2 - highness,
            {
                let cur_cost: BitCost =
                    self.singleton_costs[cost_type_index][highness][speed_index];
                if cur_cost < ret_cost[highness] {
                    best_indexes[highness] = speed_index;
                    ret_cost[highness] = cur_cost;
                }
                highness = highness + 1;
            }
            speed_index = speed_index + 1;
        }
        let ret_speed: [SpeedAndMax; 2] = [
            SpeedAndMax(SPEEDS_TO_SEARCH[best_indexes[0]], MAXES_TO_SEARCH[best_indexes[0]]),
            SpeedAndMax(SPEEDS_TO_SEARCH[best_indexes[1]], MAXES_TO_SEARCH[best_indexes[1]]),
        ];
        (ret_speed, ret_cost)
    }

    /// For the low and the high nibble, the speed of least accumulated cost
    /// under a strategy.
    pub fn best_speeds(&mut self, cm: bool, combined: bool) -> (best: [SpeedAndMax; 2])
        ensures
            *final(self) == *old(self),
            forall|high: int|
                0 <= high < 2 ==> {
                    let costs = #[trigger] old(self)@.costs_of(strategy_of(cm, combined), high);
                    &&& best@[high].0 == SPEEDS_TO_SEARCH@[min_cost_index(costs)]
                    &&& best@[high].1 == MAXES_TO_SEARCH@[min_cost_index(costs)]
                },
    {
        let cost_type_index: usize = cost_type_index(cm, combined);
        proof {
            self.lemma_costs_of(cost_type_index as int, 0);
            self.lemma_costs_of(cost_type_index as int, 1);
        }
        let low = min_cost_speed_max(self.singleton_costs[cost_type_index][0].as_slice());
        let high = min_cost_speed_max(self.singleton_costs[cost_type_index][1].as_slice());
        [low, high]
    }

    /// For the low and the high nibble, the least accumulated cost under a
    /// strategy.
    pub fn best_speeds_costs(&mut self, cm: bool, combined: bool) -> (least: [BitCost; 2])
        ensures
            *final(self) == *old(self),
            forall|high: int|
                0 <= high < 2 ==> {
                    let costs = #[trigger] old(self)@.costs_of(strategy_of(cm, combined), high);
                    least@[high] == costs[min_cost_index(costs)]
                },
    {
        let cost_type_index: usize = cost_type_index(cm, combined);
        proof {
            self.lemma_costs_of(cost_type_index as int, 0);
            self.lemma_costs_of(cost_type_index as int, 1);
        }
        let low = min_cost_value(self.singleton_costs[cost_type_index][0].as_slice());
        let high = min_cost_value(self.singleton_costs[cost_type_index][1].as_slice());
        [low, high]
    }

    proof fn lemma_costs_of(&self, strategy: int, high: int)
        requires
            0 <= strategy < 3,
            0 <= high < 2,
        ensures
            self@.costs_of(strategy, high) == self.singleton_costs@[strategy]@[high]@,
    {
        assert(self@.costs_of(strategy, high) =~= self.singleton_costs@[strategy]@[high]@);
    }

    /// Scores one literal in the first phase.
    fn update_cost_phase0(
        &mut self,
        stride_prior: u8,
        cm_prior: usize,
        precursor_prior: usize,
        literal: u8,
    )
        requires
            old(self)@.enabled(),
            bank_valid(old(self)@.cm_priors),
            bank_valid(old(self)@.stride_priors),
            cm_prior < 256,
            precursor_prior < 256,
            forall|k: int|
                0 <= k < 96 ==> 0 <= #[trigger] old(self)@.costs[k] <= i128::MAX - 4
                    * MAX_NIBBLE_COST,
        ensures
            final(self)@ == old(self)@.explore_literal(
                stride_prior,
                cm_prior as int,
                precursor_prior as int,
                literal,
            ),
            final(self)@.same_setting(old(self)@),
            bank_valid(final(self)@.cm_priors),
            bank_valid(final(self)@.stride_priors),
            forall|k: int|
                0 <= k < 96 ==> old(self)@.costs[k] <= #[trigger] final(self)@.costs[k] <= old(
                    self,
                )@.costs[k] + MAX_NIBBLE_COST,
    {
        let upper_nibble: u8 = literal >> 4;
        let lower_nibble: u8 = literal & 0xf;
        assert(literal >> 4 == literal / 16 && literal & 0xf == literal % 16) by (bit_vector);
        proof {
            reveal(EntropyModel::explore_literal);
            reveal(EntropyModel::refine_literal);
        }
        let ghost m0 = self@;
        let ghost upper = upper_nibble as int;
        let ghost lower = lower_nibble as int;
        let ghost cm_high = cm_high_index(cm_prior as int);
        let ghost cm_low = cm_low_index(cm_prior as int, upper);
        let ghost stride_high = stride_high_index(stride_prior as int, precursor_prior as int);
        let ghost stride_low = stride_low_index(stride_prior as int, precursor_prior as int, upper);
        {
            let cm_cdf_high = get_cm_cdf_high(cell_slice_mut(&mut self.cm_priors), cm_prior);
            proof {
                lemma_bank_row(m0.cm_priors, cm_high);
                assert(flat_costs(self.singleton_costs) == m0.costs);
            }
            price_and_learn(
                &mut self.singleton_costs,
                SINGLETON_CM_STRATEGY,
                1,
                cm_cdf_high,
                upper_nibble,
            );
        }
        let ghost m1 = self@;
        proof {
            lemma_with_row(
                m0.cm_priors,
                cm_high,
                updated_row(row_of(m0.cm_priors, cm_high), upper),
            );
        }
        {
            let cm_cdf_low = get_cm_cdf_low(
                cell_slice_mut(&mut self.cm_priors),
                cm_prior,
                upper_nibble,
            );
            proof {
                lemma_bank_row(m1.cm_priors, cm_low);
                assert(flat_costs(self.singleton_costs) == m1.costs);
            }
            price_and_learn(
                &mut self.singleton_costs,
                SINGLETON_CM_STRATEGY,
                0,
                cm_cdf_low,
                lower_nibble,
            );
        }
        let ghost m2 = self@;
        proof {
            lemma_with_row(
                m1.cm_priors,
                cm_low,
                updated_row(row_of(m1.cm_priors, cm_low), lower),
            );
        }
        {
            let stride_cdf_high = get_stride_cdf_high(
                cell_slice_mut(&mut self.stride_priors),
                stride_prior,
                precursor_prior,
            );
            proof {
                lemma_bank_row(m2.stride_priors, stride_high);
                assert(flat_costs(self.singleton_costs) == m2.costs);
            }
            price_and_learn(
                &mut self.singleton_costs,
                SINGLETON_STRIDE_STRATEGY,
                1,
                stride_cdf_high,
                upper_nibble,
            );
        }
        let ghost m3 = self@;
        proof {
            lemma_with_row(
                m2.stride_priors,
                stride_high,
                updated_row(row_of(m2.stride_priors, stride_high), upper),
            );
        }
        {
            let stride_cdf_low = get_stride_cdf_low(
                cell_slice_mut(&mut self.stride_priors),
                stride_prior,
                precursor_prior,
                upper_nibble,
            );
            proof {
                lemma_bank_row(m3.stride_priors, stride_low);
                assert(flat_costs(self.singleton_costs) == m3.costs);
            }
            price_and_learn(
                &mut self.singleton_costs,
                SINGLETON_STRIDE_STRATEGY,
                0,
                stride_cdf_low,
                lower_nibble,
            );
        }
        proof {
            let m4 = self@;
            lemma_with_row(
                m3.stride_priors,
                stride_low,
                updated_row(row_of(m3.stride_priors, stride_low), lower),
            );
            lemma_charged_once(m0.costs, m1.costs, m2.costs, m3.costs, m4.costs, 1, 0, 3, 2);
            assert(m4 == m0.explore_literal(
                stride_prior,
                cm_prior as int,
                precursor_prior as int,
                literal,
            ));
        }
    }

    /// Scores one literal in the second phase.
    fn update_cost_phase1(
        &mut self,
        stride_prior: u8,
        cm_prior: usize,
        literal: u8,
        cm_speed_index_low: usize,
        cm_speed_index: usize,
    )
        requires
            old(self)@.enabled(),
            bank_valid(old(self)@.cm_priors),
            bank_valid(old(self)@.stride_priors),
            cm_prior < 256,
            cm_speed_index_low == old(self)@.best_cm_speed_low < 16,
            cm_speed_index == old(self)@.best_cm_speed_high < 16,
            forall|k: int|
                0 <= k < 96 ==> 0 <= #[trigger] old(self)@.costs[k] <= i128::MAX - 4
                    * MAX_NIBBLE_COST,
        ensures
            final(self)@ == old(self)@.refine_literal(stride_prior, cm_prior as int, literal),
            final(self)@.same_setting(old(self)@),
            bank_valid(final(self)@.cm_priors),
            bank_valid(final(self)@.stride_priors),
            forall|k: int|
                0 <= k < 96 ==> old(self)@.costs[k] <= #[trigger] final(self)@.costs[k] <= old(
                    self,
                )@.costs[k] + MAX_NIBBLE_COST,
    {
        let upper_nibble: u8 = literal >> 4;
        let lower_nibble: u8 = literal & 0xf;
        assert(literal >> 4 == literal / 16 && literal & 0xf == literal % 16) by (bit_vector);
        proof {
            reveal(EntropyModel::explore_literal);
            reveal(EntropyModel::refine_literal);
        }
        let ghost m0 = self@;
        let ghost upper = upper_nibble as int;
        let ghost lower = lower_nibble as int;
        let ghost cm_high = cm_high_index(cm_prior as int);
        let ghost cm_low = cm_low_index(cm_prior as int, upper);
        let ghost stride_high = stride_high_index(stride_prior as int, cm_prior as int);
        let ghost stride_low = stride_low_index(stride_prior as int, cm_prior as int, upper);
        let provisional_cm_high_cdf: [u16; 16];
        let provisional_cm_low_cdf: [u16; 16];
        {
            let cm_cdf_high = get_cm_cdf_high(cell_slice_mut(&mut self.cm_priors), cm_prior);
            proof {
                lemma_bank_row(m0.cm_priors, cm_high);
            }
            provisional_cm_high_cdf = extract_single_cdf(cm_cdf_high, cm_speed_index);
        }
        proof {
            lemma_with_same_row(m0.cm_priors, cm_high);
            lemma_single_cdf_positive(row_of(m0.cm_priors, cm_high), cm_speed_index as int);
        }
        {
            let cm_cdf_low = get_cm_cdf_low(
                cell_slice_mut(&mut self.cm_priors),
                cm_prior,
                upper_nibble,
            );
            proof {
                lemma_bank_row(m0.cm_priors, cm_low);
            }
            provisional_cm_low_cdf = extract_single_cdf(cm_cdf_low, cm_speed_index_low);
        }
        proof {
            lemma_with_same_row(m0.cm_priors, cm_low);
            lemma_single_cdf_positive(row_of(m0.cm_priors, cm_low), cm_speed_index_low as int);
            assert(self@ == m0);
        }
        {
            let stride_cdf_high = get_stride_cdf_high(
                cell_slice_mut(&mut self.stride_priors),
                stride_prior,
                cm_prior,
            );
            proof {
                lemma_bank_row(m0.stride_priors, stride_high);
                assert(flat_costs(self.singleton_costs) == m0.costs);
            }
            price_combined(
                &mut self.singleton_costs,
                1,
                stride_cdf_high,
                provisional_cm_high_cdf,
                upper_nibble,
            );
            price_and_learn(
                &mut self.singleton_costs,
                SINGLETON_STRIDE_STRATEGY,
                1,
                stride_cdf_high,
                upper_nibble,
            );
        }
        let ghost m1 = self@;
        let ghost c1 = scored_combined(
            m0.costs,
            1,
            row_of(m0.stride_priors, stride_high),
            provisional_cm_high_cdf@,
            upper,
        );
        proof {
            lemma_with_row(
                m0.stride_priors,
                stride_high,
                updated_row(row_of(m0.stride_priors, stride_high), upper),
            );
        }
        {
            let stride_cdf_low = get_stride_cdf_low(
                cell_slice_mut(&mut self.stride_priors),
                stride_prior,
                cm_prior,
                upper_nibble,
            );
            proof {
                lemma_bank_row(m1.stride_priors, stride_low);
                assert(flat_costs(self.singleton_costs) == m1.costs);
            }
            price_combined(
                &mut self.singleton_costs,
                0,
                stride_cdf_low,
                provisional_cm_low_cdf,
                lower_nibble,
            );
            price_and_learn(
                &mut self.singleton_costs,
                SINGLETON_STRIDE_STRATEGY,
                0,
                stride_cdf_low,
                lower_nibble,
            );
        }
        let ghost m2 = self@;
        let ghost c3 = scored_combined(
            m1.costs,
            0,
            row_of(m1.stride_priors, stride_low),
            provisional_cm_low_cdf@,
            lower,
        );
        proof {
            lemma_with_row(
                m1.stride_priors,
                stride_low,
                updated_row(row_of(m1.stride_priors, stride_low), lower),
            );
            lemma_charged_once(m0.costs, c1, m1.costs, c3, m2.costs, 5, 3, 4, 2);
        }
        {
            let cm_cdf_high = get_cm_cdf_high(cell_slice_mut(&mut self.cm_priors), cm_prior);
            proof {
                lemma_bank_row(m2.cm_priors, cm_high);
            }
            update_one_cdf(cm_cdf_high, upper_nibble, cm_speed_index, NUM_SPEEDS_TO_TRY);
        }
        let ghost m3 = self@;
        proof {
            lemma_with_row(
                m2.cm_priors,
                cm_high,
                updated_row_single(row_of(m2.cm_priors, cm_high), upper, cm_speed_index as int),
            );
        }
        {
            let cm_cdf_low = get_cm_cdf_low(
                cell_slice_mut(&mut self.cm_priors),
                cm_prior,
                upper_nibble,
            );
            proof {
                lemma_bank_row(m3.cm_priors, cm_low);
            }
            update_one_cdf(cm_cdf_low, lower_nibble, cm_speed_index_low, NUM_SPEEDS_TO_TRY);
        }
        proof {
            let m4 = self@;
            lemma_with_row(
                m3.cm_priors,
                cm_low,
                updated_row_single(row_of(m3.cm_priors, cm_low), lower, cm_speed_index_low as int),
            );
            assert(m4 == m0.refine_literal(stride_prior, cm_prior as int, literal));
        }
    }

    /// Scores one literal that follows the bytes `prev_byte` and, before it,
    /// `prev_prev_byte`, and has the stride byte `stride_prior`.
    fn score_literal(
        &mut self,
        prev_byte: u8,
        prev_prev_byte: u8,
        stride_prior: u8,
        literal: u8,
    )
        requires
            old(self)@.enabled(),
            bank_valid(old(self)@.cm_priors),
            bank_valid(old(self)@.stride_priors),
            old(self)@.best_cm_speed_low < 16,
            old(self)@.best_cm_speed_high < 16,
            context_type_of(old(self)@.prediction_modes) is Some,
            forall|k: int|
                0 <= k < 96 ==> 0 <= #[trigger] old(self)@.costs[k] <= i128::MAX - 4
                    * MAX_NIBBLE_COST,
        ensures
            final(self)@ == old(self)@.score_literal(
                prev_byte,
                prev_prev_byte,
                stride_prior,
                literal,
            ),
            final(self)@.same_setting(old(self)@),
            bank_valid(final(self)@.cm_priors),
            bank_valid(final(self)@.stride_priors),
            forall|k: int|
                0 <= k < 96 ==> old(self)@.costs[k] <= #[trigger] final(self)@.costs[k] <= old(
                    self,
                )@.costs[k] + MAX_NIBBLE_COST,
    {
        let (huffman_table_index, raw_prior) = compute_huffman_table_index_for_context_map(
            prev_byte,
            prev_prev_byte,
            &self.context_map,
            self.block_type,
        );
        if self.phase1 {
            let ilow: usize = self.best_cm_speed_index_low as usize;
            let ihigh: usize = self.best_cm_speed_index as usize;
            self.update_cost_phase1(stride_prior, huffman_table_index, literal, ilow, ihigh);
        } else {
            self.update_cost_phase0(stride_prior, huffman_table_index, raw_prior as usize, literal);
        }
    }

    /// Scores a run of literals and moves the cursor past it.
    #[verifier::rlimit(40)]
    fn push_literals(&mut self, data: &[u8])
        requires
            old(self).wf(),
            old(self)@.enabled(),
            old(self)@.cursor < old(self)@.input.len(),
            old(self)@.cursor + data@.len() <= usize::MAX,
            context_type_of(old(self)@.prediction_modes) is Some,
        ensures
            final(self).wf(),
            final(self)@ == (EntropyModel {
                cursor: old(self)@.cursor + data@.len(),
                ..old(self)@.after_literals(data@, data@.len())
            }),
            final(self)@.enabled(),
    {
        let ghost m0 = self@;
        let input_len: usize = self.input.len();
        proof {
            vstd::arithmetic::div_mod::lemma_multiply_divide_lt(
                (m0.cursor * 8) as int,
                input_len as int,
                8,
            );
            vstd::arithmetic::div_mod::lemma_div_pos_is_pos(
                (m0.cursor * 8) as int,
                input_len as int,
            );
        }
        let leaf: usize = ((self.local_byte_offset as u128 * 8) / (input_len as u128)) as usize;
        let stride: usize = self.stride_pyramid_leaves[leaf] as usize;
        let reach: usize = stride % 8;
        let window: usize = if reach + 1 > 2 {
            reach + 1
        } else {
            2
        };
        let mut priors: [u8; 8] = [0;8];
        let mut poffset: usize = 0;
        while poffset < window
            invariant
                poffset <= window <= 8,
                self@ == m0,
                m0.cursor < m0.input.len() <= usize::MAX,
                forall|d: int|
                    1 <= d <= 8 ==> #[trigger] priors@[8 - d] == if d <= poffset && d <= m0.cursor {
                        m0.input[m0.cursor - d]
                    } else {
                        0
                    },
            decreases window - poffset,
        {
            if self.local_byte_offset > poffset {
                priors[7 - poffset] = self.input.get(self.local_byte_offset - poffset - 1);
            }
            poffset = poffset + 1;
        }
        let mut cur: usize = 0;
        let mut j: usize = 0;
        let n: usize = data.len();
        let ghost limit = m0.cost_limit();
        while j < n
            invariant
                j <= n == data@.len(),
                cur == j % 8,
                reach < 8,
                reach == m0.stride() % 8,
                window == if reach + 1 > 2 {
                    reach + 1
                } else {
                    2int
                },
                m0.enabled(),
                m0.best_cm_speed_low < 16,
                m0.best_cm_speed_high < 16,
                0 <= limit <= 2 * usize::MAX * MAX_NIBBLE_COST,
                context_type_of(m0.prediction_modes) is Some,
                self@ == m0.after_literals(data@, j as nat),
                self@.same_setting(m0),
                bank_valid(self@.cm_priors),
                bank_valid(self@.stride_priors),
                forall|k: int|
                    0 <= k < 96 ==> 0 <= #[trigger] self@.costs[k] <= limit + j * MAX_NIBBLE_COST,
                forall|d: int|
                    1 <= d <= 8 ==> #[trigger] priors@[(j % 8 + 8 - d) % 8] == history_byte(
                        m0.input,
                        m0.cursor as int,
                        window as int,
                        data@,
                        j as int,
                        d,
                    ),
            decreases n - j,
        {
            let literal: u8 = data[j];
            let ghost before = self@;
            proof {
                assert(priors@[(j % 8 + 8 - 1) % 8] == history_byte(
                    m0.input,
                    m0.cursor as int,
                    window as int,
                    data@,
                    j as int,
                    1,
                ));
                assert(priors@[(j % 8 + 8 - 2) % 8] == history_byte(
                    m0.input,
                    m0.cursor as int,
                    window as int,
                    data@,
                    j as int,
                    2,
                ));
                assert(priors@[(j % 8 + 8 - (reach + 1)) % 8] == history_byte(
                    m0.input,
                    m0.cursor as int,
                    window as int,
                    data@,
                    j as int,
                    reach + 1,
                ));
                assert forall|k: int| 0 <= k < 96 implies 0 <= #[trigger] before.costs[k] <= i128::MAX
                    - 4 * MAX_NIBBLE_COST by {
                    assert(before.costs[k] <= limit + j * MAX_NIBBLE_COST);
                }
            }
            let stride_prior: u8 = priors[(cur + 7 - reach) % 8];
            self.score_literal(priors[(cur + 7) % 8], priors[(cur + 6) % 8], stride_prior, literal);
            let ghost ring = priors@;
            priors[cur] = literal;
            proof {
                lemma_ring_step(
                    ring,
                    priors@,
                    m0.input,
                    m0.cursor as int,
                    window as int,
                    data@,
                    j as int,
                );
                assert(self@ == before.literal_step(data@, j as int));
                assert forall|k: int| 0 <= k < 96 implies 0 <= #[trigger] self@.costs[k] <= limit + (j
                    + 1) * MAX_NIBBLE_COST by {
                    assert(before.costs[k] <= limit + j * MAX_NIBBLE_COST);
                    assert(self@.costs[k] <= before.costs[k] + MAX_NIBBLE_COST);
                }
            }
            cur = (cur + 1) % 8;
            j = j + 1;
        }
        self.local_byte_offset = self.local_byte_offset + n;
    }

    /// Takes one command of the stream, records what it means for the costs,
    /// and hands the command on unchanged.
    pub fn push<'b>(&mut self, val: Command<'b>) -> (forwarded: Command<'b>)
        requires
            old(self).wf(),
            old(self)@.accepts(val),
        ensures
            forwarded == val,
            final(self).wf(),
            final(self)@ == old(self)@.push(val),
            final(self)@.cm_priors.len() == old(self)@.cm_priors.len(),
            final(self)@.stride_priors.len() == old(self)@.stride_priors.len(),
    {
        match &val {
            Command::BlockSwitchCommand(_)
            | Command::BlockSwitchDistance(_)
            | Command::PredictionMode(_) => {},
            Command::Copy(copy) => {
                self.local_byte_offset = self.local_byte_offset + copy.num_bytes as usize;
            },
            Command::Dict(dict) => {
                self.local_byte_offset = self.local_byte_offset + dict.final_size as usize;
            },
            Command::BlockSwitchLiteral(block_type) => {
                self.block_type = block_type.block_type();
            },
            Command::Literal(lit) => {
                if lit.data.len() > 0 {
                    self.push_literals(lit.data);
                }
            },
        }
        val
    }
}

} // verus!
