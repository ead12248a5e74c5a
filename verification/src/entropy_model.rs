//! What the cost tracker knows and how each command changes it, as
//! mathematics: the state, the step for one literal in either phase, the walk
//! over a run of literals, and the close of the first phase.
use vstd::prelude::*;
use crate::cdf::{
    bank_valid, combined_cost, initial_bank, nibble_cost, row_of, single_cdf, updated_row,
    updated_row_single, with_row, MAX_NIBBLE_COST, NIBBLE_PRIOR_SIZE,
};
use crate::context::{context_map_entry, context_of};
use crate::interface::{context_type_of, Command};
use crate::log2::BitCost;

verus! {

/// Number of counters that back the context-map model: 256 contexts, each
/// with a row for the high nibble and one for each value of it.
pub const CONTEXT_MAP_PRIOR_SIZE: usize = 256 * NIBBLE_PRIOR_SIZE * 17;

/// Number of counters that back the stride model.
pub const STRIDE_PRIOR_SIZE: usize = 256 * 256 * NIBBLE_PRIOR_SIZE * 2;

/// Row of the context-map bank for the high nibble under `cm_prior`.
pub open spec fn cm_high_index(cm_prior: int) -> int {
    17 * cm_prior
}

/// Row of the context-map bank for the low nibble under `cm_prior`, once the
/// high nibble is known.
pub open spec fn cm_low_index(cm_prior: int, high_nibble: int) -> int {
    17 * cm_prior + high_nibble + 1
}

/// Row of the stride bank for the high nibble.
pub open spec fn stride_high_index(stride_prior: int, cm_prior: int) -> int {
    2 * (cm_prior + 256 * stride_prior)
}

/// Row of the stride bank for the low nibble: only the low four bits of the
/// stride byte take part, together with the high nibble.
pub open spec fn stride_low_index(stride_prior: int, cm_prior: int, high_nibble: int) -> int {
    1 + 2 * (cm_prior + 256 * (stride_prior % 16) + 4096 * high_nibble)
}

/// The bank after all speeds of row `index` have learned `nibble`.
pub open spec fn learn(bank: Seq<u16>, index: int, nibble: int) -> Seq<u16> {
    with_row(bank, index, updated_row(row_of(bank, index), nibble))
}

/// The bank after the one speed `speed` of row `index` has learned `nibble`.
pub open spec fn learn_single(bank: Seq<u16>, index: int, nibble: int, speed: int) -> Seq<u16> {
    with_row(bank, index, updated_row_single(row_of(bank, index), nibble, speed))
}

/// Position of a cost among the 96: 3 strategies, each with the low and
/// the high nibble, each with 16 speeds.
pub open spec fn cost_slot(strategy: int, high: int, speed: int) -> int {
    strategy * 32 + high * 16 + speed
}

/// The cost bucket of a strategy: 2 for the blend if `combined`, else 0 for
/// the context map if `cm`, else 1 for the stride.
pub open spec fn strategy_of(cm: bool, combined: bool) -> int {
    if combined {
        2
    } else if cm {
        0
    } else {
        1
    }
}

/// The costs after each speed of a strategy and nibble position was charged
/// what `nibble` costs under that speed of `row`.
pub open spec fn scored(
    costs: Seq<BitCost>,
    strategy: int,
    high: int,
    row: Seq<u16>,
    nibble: int,
) -> Seq<BitCost> {
    Seq::new(
        96,
        |k: int|
            if k / 16 == strategy * 2 + high {
                (costs[k] + nibble_cost(row, nibble, k % 16)) as BitCost
            } else {
                costs[k]
            },
    )
}

/// The costs after each speed of the blended strategy was charged what
/// `nibble` costs under the blend of that speed of `row` with `mixing`.
pub open spec fn scored_combined(
    costs: Seq<BitCost>,
    high: int,
    row: Seq<u16>,
    mixing: Seq<u16>,
    nibble: int,
) -> Seq<BitCost> {
    Seq::new(
        96,
        |k: int|
            if k / 16 == 4 + high {
                (costs[k] + combined_cost(row, mixing, nibble, k % 16)) as BitCost
            } else {
                costs[k]
            },
    )
}

/// Position of the least of the first `n` costs; of several least costs, the
/// first.
pub open spec fn min_cost_index_among(cost: Seq<BitCost>, n: int) -> int
    decreases n,
{
    if n <= 1 {
        0
    } else {
        let best = min_cost_index_among(cost, n - 1);
        if cost[n - 1] < cost[best] {
            n - 1
        } else {
            best
        }
    }
}

/// Position of the least of sixteen costs; of several least costs, the first.
pub open spec fn min_cost_index(cost: Seq<BitCost>) -> int {
    min_cost_index_among(cost, 16)
}

/// The byte `distance` places before literal `j` of a run of literals `data`
/// that begins at `cursor`: an earlier literal of the run, or else the input
/// byte that far back, as long as it lies within the `window` most recent
/// input bytes; otherwise 0.
pub open spec fn history_byte(
    input: Seq<u8>,
    cursor: int,
    window: int,
    data: Seq<u8>,
    j: int,
    distance: int,
) -> u8 {
    if distance <= j {
        data[j - distance]
    } else if distance - j <= window && distance - j <= cursor {
        input[cursor - (distance - j)]
    } else {
        0
    }
}

/// What the tracker knows at any moment.
pub struct EntropyModel {
    /// The input of the run.
    pub input: Seq<u8>,
    /// The literal context map in force.
    pub literal_context_map: Seq<u8>,
    /// The array that begins with the prediction mode.
    pub prediction_modes: Seq<u8>,
    /// The literal block type in force.
    pub block_type: u8,
    /// Position in the input that the commands so far have reached.
    pub cursor: nat,
    /// Counters of the context-map model.
    pub cm_priors: Seq<u16>,
    /// Counters of the stride model.
    pub stride_priors: Seq<u16>,
    /// Stride of each eighth of the input.
    pub strides: Seq<u8>,
    /// Accumulated cost per strategy, nibble position and speed.
    pub costs: Seq<BitCost>,
    /// Winning context-map speed for the low nibble.
    pub best_cm_speed_low: u8,
    /// Winning context-map speed for the high nibble.
    pub best_cm_speed_high: u8,
    /// Whether the first phase is over.
    pub refining: bool,
}

impl EntropyModel {
    /// The state of a new tracker.
    pub open spec fn initial(
        input: Seq<u8>,
        strides: Seq<u8>,
        literal_context_map: Seq<u8>,
        prediction_modes: Seq<u8>,
        cdf_detect: bool,
    ) -> EntropyModel {
        EntropyModel {
            input,
            literal_context_map,
            prediction_modes,
            block_type: 0,
            cursor: 0,
            cm_priors: if cdf_detect {
                initial_bank(CONTEXT_MAP_PRIOR_SIZE as nat)
            } else {
                Seq::empty()
            },
            stride_priors: if cdf_detect {
                initial_bank(STRIDE_PRIOR_SIZE as nat)
            } else {
                Seq::empty()
            },
            strides,
            costs: Seq::new(96, |k: int| 0i128),
            best_cm_speed_low: 0,
            best_cm_speed_high: 0,
            refining: false,
        }
    }

    /// Whether the counters are allocated, so that literals can be scored.
    pub open spec fn enabled(self) -> bool {
        self.cm_priors.len() == CONTEXT_MAP_PRIOR_SIZE && self.stride_priors.len()
            == STRIDE_PRIOR_SIZE
    }

    /// No accumulated cost can be above this: 16 bits for every byte that the
    /// cursor has passed, in this phase and in the one before.
    pub open spec fn cost_limit(self) -> int {
        (if self.refining {
            usize::MAX as int
        } else {
            0
        } + self.cursor) * MAX_NIBBLE_COST
    }

    /// What holds of every tracker.
    pub open spec fn valid(self) -> bool {
        &&& self.input.len() <= usize::MAX
        &&& self.cursor <= usize::MAX
        &&& self.strides.len() == 8
        &&& self.costs.len() == 96
        &&& forall|k: int| 0 <= k < 96 ==> 0 <= #[trigger] self.costs[k] <= self.cost_limit()
        &&& self.best_cm_speed_low < 16
        &&& self.best_cm_speed_high < 16
        &&& if self.enabled() {
            bank_valid(self.cm_priors) && bank_valid(self.stride_priors)
        } else {
            self.cm_priors.len() == 0 && self.stride_priors.len() == 0
        }
    }

    /// The stride of the stretch of input that the cursor is in.
    pub open spec fn stride(self) -> u8 {
        self.strides[(self.cursor * 8) as int / self.input.len() as int]
    }

    /// The state after one literal was scored in the first phase: the context
    /// map and the stride model each price the high nibble and then the low
    /// nibble under all sixteen speeds, and learn each nibble right after
    /// pricing it.
    #[verifier::opaque]
    pub open spec fn explore_literal(
        self,
        stride_prior: u8,
        cm_prior: int,
        precursor_prior: int,
        literal: u8,
    ) -> EntropyModel {
        let upper = (literal / 16) as int;
        let lower = (literal % 16) as int;
        let cm_high = cm_high_index(cm_prior);
        let cm_low = cm_low_index(cm_prior, upper);
        let stride_high = stride_high_index(stride_prior as int, precursor_prior);
        let stride_low = stride_low_index(stride_prior as int, precursor_prior, upper);
        let costs1 = scored(self.costs, 0, 1, row_of(self.cm_priors, cm_high), upper);
        let cm1 = learn(self.cm_priors, cm_high, upper);
        let costs2 = scored(costs1, 0, 0, row_of(cm1, cm_low), lower);
        let cm2 = learn(cm1, cm_low, lower);
        let costs3 = scored(costs2, 1, 1, row_of(self.stride_priors, stride_high), upper);
        let stride1 = learn(self.stride_priors, stride_high, upper);
        let costs4 = scored(costs3, 1, 0, row_of(stride1, stride_low), lower);
        let stride2 = learn(stride1, stride_low, lower);
        EntropyModel { cm_priors: cm2, stride_priors: stride2, costs: costs4, ..self }
    }

    /// The state after one literal was scored in the second phase: the stride
    /// model prices each nibble under all sixteen speeds, alone and blended
    /// with the winning speed of the context map as it stood before this
    /// literal, and learns the nibble; then the context map learns both
    /// nibbles under its winning speeds only.
    #[verifier::opaque]
    pub open spec fn refine_literal(self, stride_prior: u8, cm_prior: int, literal: u8)
        -> EntropyModel {
        let upper = (literal / 16) as int;
        let lower = (literal % 16) as int;
        let cm_high = cm_high_index(cm_prior);
        let cm_low = cm_low_index(cm_prior, upper);
        let stride_high = stride_high_index(stride_prior as int, cm_prior);
        let stride_low = stride_low_index(stride_prior as int, cm_prior, upper);
        let frozen_high = single_cdf(
            row_of(self.cm_priors, cm_high),
            self.best_cm_speed_high as int,
        );
        let frozen_low = single_cdf(row_of(self.cm_priors, cm_low), self.best_cm_speed_low as int);
        let row_high = row_of(self.stride_priors, stride_high);
        let costs1 = scored_combined(self.costs, 1, row_high, frozen_high, upper);
        let costs2 = scored(costs1, 1, 1, row_high, upper);
        let stride1 = learn(self.stride_priors, stride_high, upper);
        let row_low = row_of(stride1, stride_low);
        let costs3 = scored_combined(costs2, 0, row_low, frozen_low, lower);
        let costs4 = scored(costs3, 1, 0, row_low, lower);
        let stride2 = learn(stride1, stride_low, lower);
        let cm1 = learn_single(self.cm_priors, cm_high, upper, self.best_cm_speed_high as int);
        let cm2 = learn_single(cm1, cm_low, lower, self.best_cm_speed_low as int);
        EntropyModel { cm_priors: cm2, stride_priors: stride2, costs: costs4, ..self }
    }

    /// Whether two states differ in nothing but the counters and the costs.
    pub open spec fn same_setting(self, other: EntropyModel) -> bool {
        &&& self.input == other.input
        &&& self.literal_context_map == other.literal_context_map
        &&& self.prediction_modes == other.prediction_modes
        &&& self.block_type == other.block_type
        &&& self.cursor == other.cursor
        &&& self.strides == other.strides
        &&& self.best_cm_speed_low == other.best_cm_speed_low
        &&& self.best_cm_speed_high == other.best_cm_speed_high
        &&& self.refining == other.refining
        &&& self.cm_priors.len() == other.cm_priors.len()
        &&& self.stride_priors.len() == other.stride_priors.len()
    }

    /// The state after a literal was scored that follows the bytes `prev_byte`
    /// and, before it, `prev_prev_byte`, and has the stride byte
    /// `stride_prior`. The two bytes give the literal context, and the
    /// context map gives the row for it.
    pub open spec fn score_literal(
        self,
        prev_byte: u8,
        prev_prev_byte: u8,
        stride_prior: u8,
        literal: u8,
    ) -> EntropyModel {
        let raw_prior = context_of(
            prev_byte,
            prev_prev_byte,
            context_type_of(self.prediction_modes)->Some_0,
        );
        let cm_prior = context_map_entry(self.literal_context_map, self.block_type, raw_prior);
        if self.refining {
            self.refine_literal(stride_prior, cm_prior, literal)
        } else {
            self.explore_literal(stride_prior, cm_prior, raw_prior as int, literal)
        }
    }

    /// The state after literal `j` of the run `data` was scored. The literal
    /// context comes from the two bytes before the literal, the stride byte
    /// from as many bytes back as the stride says.
    pub open spec fn literal_step(self, data: Seq<u8>, j: int) -> EntropyModel {
        let stride = (self.stride() % 8) as int;
        let window = if stride + 1 > 2 {
            stride + 1
        } else {
            2
        };
        self.score_literal(
            history_byte(self.input, self.cursor as int, window, data, j, 1),
            history_byte(self.input, self.cursor as int, window, data, j, 2),
            history_byte(self.input, self.cursor as int, window, data, j, stride + 1),
            data[j],
        )
    }

    /// The state after the first `n` literals of the run `data` were scored.
    pub open spec fn after_literals(self, data: Seq<u8>, n: nat) -> EntropyModel
        decreases n,
    {
        if n == 0 {
            self
        } else {
            self.after_literals(data, (n - 1) as nat).literal_step(data, n - 1)
        }
    }

    /// Whether the tracker can take the command: the cursor must stay within
    /// a `usize`, a run of literals needs a cursor inside the input, and a run
    /// that is not empty needs allocated counters and a prediction mode.
    pub open spec fn accepts(self, command: Command) -> bool {
        match command {
            Command::Copy(copy) => self.cursor + copy.num_bytes <= usize::MAX,
            Command::Dict(dict) => self.cursor + dict.final_size <= usize::MAX,
            Command::Literal(lit) => {
                &&& self.cursor < self.input.len()
                &&& self.cursor + lit.data@.len() <= usize::MAX
                &&& lit.data@.len() > 0 ==> self.enabled() && context_type_of(self.prediction_modes)
                    is Some
            },
            _ => true,
        }
    }

    /// The state after a command: copies and dictionary words move the
    /// cursor, a literal block switch sets the block type, literals are scored
    /// one by one and then move the cursor, and nothing else leaves a trace.
    pub open spec fn push(self, command: Command) -> EntropyModel {
        match command {
            Command::Copy(copy) => EntropyModel {
                cursor: self.cursor + copy.num_bytes as nat,
                ..self
            },
            Command::Dict(dict) => EntropyModel {
                cursor: self.cursor + dict.final_size as nat,
                ..self
            },
            Command::BlockSwitchLiteral(switch) => EntropyModel { block_type: switch.0.0, ..self },
            Command::Literal(lit) => EntropyModel {
                cursor: self.cursor + lit.data@.len(),
                ..self.after_literals(lit.data@, lit.data@.len())
            },
            _ => self,
        }
    }

    /// The sixteen costs of a strategy and nibble position.
    pub open spec fn costs_of(self, strategy: int, high: int) -> Seq<BitCost> {
        self.costs.subrange(cost_slot(strategy, high, 0), cost_slot(strategy, high, 0) + 16)
    }

    /// The state after the first phase was closed: for each nibble position
    /// the context-map speed of least cost wins, the cursor goes back to the
    /// start, and the second phase begins.
    pub open spec fn finish_phase0(self) -> EntropyModel {
        EntropyModel {
            best_cm_speed_low: min_cost_index(self.costs_of(0, 0)) as u8,
            best_cm_speed_high: min_cost_index(self.costs_of(0, 1)) as u8,
            cursor: 0,
            refining: true,
            ..self
        }
    }
}

/// The state after a run of commands.
pub open spec fn after_commands(start: EntropyModel, commands: Seq<Command>) -> EntropyModel
    decreases commands.len(),
{
    if commands.len() == 0 {
        start
    } else {
        after_commands(start, commands.drop_last()).push(commands.last())
    }
}

/// The state after the stream was walked in the first phase, the phase was
/// closed, and the stream was walked again.
pub open spec fn after_two_phases(start: EntropyModel, commands: Seq<Command>) -> EntropyModel {
    after_commands(after_commands(start, commands).finish_phase0(), commands)
}

/// The winning speed of a strategy and nibble position.
pub open spec fn winning_speed(state: EntropyModel, strategy: int, high: int) -> int {
    min_cost_index(state.costs_of(strategy, high))
}

/// `min_cost_index_among` names a cost that none of the first `n` is below,
/// and that every cost before it is above.
pub proof fn lemma_min_cost_index(cost: Seq<BitCost>, n: int)
    requires
        1 <= n <= cost.len(),
    ensures
        0 <= min_cost_index_among(cost, n) < n,
        forall|i: int| 0 <= i < n ==> cost[min_cost_index_among(cost, n)] <= #[trigger] cost[i],
        forall|i: int|
            0 <= i < min_cost_index_among(cost, n) ==> cost[min_cost_index_among(cost, n)]
                < #[trigger] cost[i],
    decreases n,
{
    if n > 1 {
        lemma_min_cost_index(cost, n - 1);
    }
}

/// Two runs over the same input with the same strides, context map and
/// stream of commands end with the same winning speeds, and the same costs.
pub proof fn lemma_two_phases_deterministic(
    input: Seq<u8>,
    strides: Seq<u8>,
    literal_context_map: Seq<u8>,
    prediction_modes: Seq<u8>,
    first_run: Seq<Command>,
    second_run: Seq<Command>,
)
    requires
        first_run == second_run,
    ensures
        forall|strategy: int, high: int|
            winning_speed(
                #[trigger] after_two_phases(
                    EntropyModel::initial(
                        input,
                        strides,
                        literal_context_map,
                        prediction_modes,
                        true,
                    ),
                    first_run,
                ),
                strategy,
                high,
            ) == winning_speed(
                after_two_phases(
                    EntropyModel::initial(
                        input,
                        strides,
                        literal_context_map,
                        prediction_modes,
                        true,
                    ),
                    second_run,
                ),
                strategy,
                high,
            ),
        after_two_phases(
            EntropyModel::initial(input, strides, literal_context_map, prediction_modes, true),
            first_run,
        ).costs == after_two_phases(
            EntropyModel::initial(input, strides, literal_context_map, prediction_modes, true),
            second_run,
        ).costs,
{
}

} // verus!
