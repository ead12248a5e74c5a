use std::collections::HashMap;

use alloc_no_stdlib::HeapAlloc;
use brotli_cost::cdf::{MAXES_TO_SEARCH, SPEEDS_TO_SEARCH};
use brotli_cost::context::Context;
use brotli_cost::context_map_entropy::{speed_to_tuple, ContextMapEntropy};
use brotli_cost::interface::{
    BlockSwitch, Command, ContextType, CopyCommand, InputPair, LiteralBlockSwitch,
    LiteralCommand, PredictionModeContextMap,
};
use brotli_cost::log2::FastLog2;

// A second, plain model of the tracker: rows are made when first touched and
// every formula is written out from scratch.

type Row = [[i64; 16]; 16]; // [bucket][speed]

fn fresh() -> Row {
    let mut row = [[0i64; 16]; 16];
    for bucket in 0..16 {
        for speed in 0..16 {
            row[bucket][speed] = 4 + 4 * bucket as i64;
        }
    }
    row
}

fn log2(v: i64) -> i128 {
    FastLog2(v as u64) as i128
}

fn mass(row: &Row, nibble: usize, speed: usize) -> i64 {
    if nibble == 0 { row[0][speed] } else { row[nibble][speed] - row[nibble - 1][speed] }
}

fn learn_speed(row: &mut Row, nibble: usize, speed: usize) {
    for bucket in nibble..16 {
        row[bucket][speed] += SPEEDS_TO_SEARCH[speed] as i64;
    }
    if row[15][speed] >= MAXES_TO_SEARCH[speed] as i64 {
        for bucket in 0..16 {
            let biased = row[bucket][speed] + bucket as i64 + 1;
            row[bucket][speed] = biased - biased / 4;
        }
    }
}

struct Reference {
    cm: HashMap<usize, Row>,
    stride: HashMap<usize, Row>,
    costs: [[[i128; 16]; 2]; 3],
    best: [usize; 2], // low, high
    refining: bool,
    cursor: usize,
    block_type: u8,
}

impl Reference {
    fn new() -> Self {
        Reference {
            cm: HashMap::new(),
            stride: HashMap::new(),
            costs: [[[0; 16]; 2]; 3],
            best: [0, 0],
            refining: false,
            cursor: 0,
            block_type: 0,
        }
    }

    fn price(&mut self, strategy: usize, high: usize, row: &Row, nibble: usize) {
        for speed in 0..16 {
            self.costs[strategy][high][speed] += log2(row[15][speed]) - log2(mass(row, nibble, speed));
        }
    }

    fn price_blend(&mut self, high: usize, row: &Row, frozen: &[i64; 16], nibble: usize) {
        let frozen_mass = if nibble == 0 { frozen[0] } else { frozen[nibble] - frozen[nibble - 1] };
        for speed in 0..16 {
            let part = (mass(row, nibble, speed) + 3 * frozen_mass) * 8192 / 32768;
            let whole = (row[15][speed] + 3 * frozen[15]) * 8192 / 32768;
            self.costs[2][high][speed] += log2(whole) - log2(part);
        }
    }

    fn literal(&mut self, stride_byte: u8, cm_prior: usize, raw_prior: usize, literal: u8) {
        let upper = (literal >> 4) as usize;
        let lower = (literal & 15) as usize;
        let cm_high = 17 * cm_prior;
        let cm_low = 17 * cm_prior + upper + 1;
        if !self.refining {
            let stride_high = 2 * (raw_prior + 256 * stride_byte as usize);
            let stride_low = 1 + 2 * (raw_prior + 256 * (stride_byte as usize & 15) + 4096 * upper);
            for (strategy, high, index, nibble) in
                [(0, 1, cm_high, upper), (0, 0, cm_low, lower), (1, 1, stride_high, upper), (1, 0, stride_low, lower)]
            {
                let bank = if strategy == 0 { &mut self.cm } else { &mut self.stride };
                let mut row = *bank.entry(index).or_insert_with(fresh);
                self.price(strategy, high, &row, nibble);
                for speed in 0..16 {
                    learn_speed(&mut row, nibble, speed);
                }
                let bank = if strategy == 0 { &mut self.cm } else { &mut self.stride };
                bank.insert(index, row);
            }
        } else {
            let stride_high = 2 * (cm_prior + 256 * stride_byte as usize);
            let stride_low = 1 + 2 * (cm_prior + 256 * (stride_byte as usize & 15) + 4096 * upper);
            let frozen = |row: &Row, speed: usize| {
                let mut cdf = [0i64; 16];
                for bucket in 0..16 {
                    cdf[bucket] = row[bucket][speed];
                }
                cdf
            };
            let frozen_high = frozen(self.cm.entry(cm_high).or_insert_with(fresh), self.best[1]);
            let frozen_low = frozen(self.cm.entry(cm_low).or_insert_with(fresh), self.best[0]);
            for (high, index, nibble, mixing) in
                [(1, stride_high, upper, frozen_high), (0, stride_low, lower, frozen_low)]
            {
                let mut row = *self.stride.entry(index).or_insert_with(fresh);
                self.price_blend(high, &row, &mixing, nibble);
                self.price(1, high, &row, nibble);
                for speed in 0..16 {
                    learn_speed(&mut row, nibble, speed);
                }
                self.stride.insert(index, row);
            }
            let best = self.best;
            learn_speed(self.cm.get_mut(&cm_high).unwrap(), upper, best[1]);
            learn_speed(self.cm.get_mut(&cm_low).unwrap(), lower, best[0]);
        }
    }

    fn literals(
        &mut self,
        input: &[u8],
        strides: &[u8; 8],
        mode: ContextType,
        literal_context_map: &[u8],
        data: &[u8],
    ) {
        let stride = (strides[self.cursor * 8 / input.len()] & 7) as usize;
        let window = std::cmp::max(stride + 1, 2);
        let history = |j: usize, distance: usize| -> u8 {
            if distance <= j {
                data[j - distance]
            } else if distance - j <= window && distance - j <= self.cursor {
                input[self.cursor - (distance - j)]
            } else {
                0
            }
        };
        let mut steps = Vec::new();
        for j in 0..data.len() {
            let raw = Context(history(j, 1), history(j, 2), mode) as usize;
            let at = self.block_type as usize * 64 + raw;
            let cm_prior = if at < literal_context_map.len() { literal_context_map[at] as usize } else { raw };
            steps.push((history(j, stride + 1), cm_prior, raw, data[j]));
        }
        for (stride_byte, cm_prior, raw, literal) in steps {
            self.literal(stride_byte, cm_prior, raw, literal);
        }
        self.cursor += data.len();
    }

    fn finish(&mut self) {
        for high in 0..2 {
            let costs = self.costs[0][high];
            let mut best = 0;
            for speed in 1..16 {
                if costs[speed] < costs[best] {
                    best = speed;
                }
            }
            self.best[high] = best;
        }
        self.cursor = 0;
        self.refining = true;
    }

    fn least(&self, strategy: usize) -> ([(u16, u16); 2], [i128; 2]) {
        let mut speeds = [(0, 0); 2];
        let mut least = [0; 2];
        for high in 0..2 {
            let costs = self.costs[strategy][high];
            let mut best = 0;
            for speed in 1..16 {
                if costs[speed] < costs[best] {
                    best = speed;
                }
            }
            speeds[high] = (SPEEDS_TO_SEARCH[best], MAXES_TO_SEARCH[best]);
            least[high] = costs[best];
        }
        (speeds, least)
    }
}

fn mode_of(byte: u8) -> ContextType {
    match byte {
        0 => ContextType::CONTEXT_LSB6,
        1 => ContextType::CONTEXT_MSB6,
        2 => ContextType::CONTEXT_UTF8,
        _ => ContextType::CONTEXT_SIGNED,
    }
}

fn stream(len: usize, seed: u32) -> Vec<u8> {
    let mut state = seed;
    let words: [&[u8]; 6] = [b"the ", b"quick ", b"brown ", b"fox, ", b"\xc3\xa9t\xc3\xa9 ", b"1234567890\n"];
    let mut out = Vec::new();
    while out.len() < len {
        state = state.wrapping_mul(1664525).wrapping_add(1013904223);
        if (state >> 20) % 7 == 0 {
            out.push((state >> 24) as u8);
        } else {
            out.extend_from_slice(words[(state >> 24) as usize % 6]);
        }
    }
    out.truncate(len);
    out
}

fn compare(input: &[u8], strides: [u8; 8], mode: u8, literal_context_map: Vec<u8>, chunks: &[usize], switch_at: usize) {
    let mut m16 = HeapAlloc::<u16>::new(0xabcd);
    let map = PredictionModeContextMap {
        literal_context_map: literal_context_map.clone(),
        predmode_speed_and_distance_context_map: vec![mode],
    };
    let split = input.len() / 3;
    let mut tracker =
        ContextMapEntropy::new(&mut m16, InputPair(&input[..split], &input[split..]), strides, map, 1);
    let mut reference = Reference::new();
    for phase in 0..2 {
        let mut at = 0;
        let mut turn = 0;
        while at < input.len() {
            let len = std::cmp::min(chunks[turn % chunks.len()], input.len() - at);
            if turn == switch_at {
                tracker.push(Command::BlockSwitchLiteral(LiteralBlockSwitch(BlockSwitch(1), 0)));
                reference.block_type = 1;
            }
            if turn % 3 == 2 {
                let command = Command::Copy(CopyCommand { distance: 1, num_bytes: len as u32 });
                assert!(tracker.accepts(&command));
                tracker.push(command);
                reference.cursor += len;
            } else {
                let command = Command::Literal(LiteralCommand { data: &input[at..at + len] });
                assert!(tracker.accepts(&command));
                tracker.push(command);
                reference.literals(input, &strides, mode_of(mode), &literal_context_map, &input[at..at + len]);
            }
            at += len;
            turn += 1;
            assert_eq!(tracker.byte_offset(), reference.cursor);
        }
        for (strategy, cm, combined) in [(0, true, false), (1, false, false), (2, false, true), (2, true, true)] {
            let (speeds, least) = reference.least(strategy);
            assert_eq!(speed_to_tuple(tracker.best_speeds(cm, combined)), speeds, "phase {}", phase);
            assert_eq!(tracker.best_speeds_costs(cm, combined), least, "phase {}", phase);
            let (single_speeds, single_costs) = tracker.best_singleton_speeds(cm, combined);
            assert_eq!(speed_to_tuple(single_speeds), speeds);
            assert_eq!(single_costs, least);
        }
        if phase == 0 {
            tracker.finish_phase0();
            reference.finish();
            tracker.push(Command::BlockSwitchLiteral(LiteralBlockSwitch(BlockSwitch(0), 0)));
            reference.block_type = 0;
        }
    }
    tracker.free(&mut m16);
}

#[test]
fn tracker_agrees_with_a_plain_model_on_text() {
    let input = stream(6000, 1);
    compare(&input, [0; 8], 2, Vec::new(), &[977, 13, 200, 1, 3000], 99);
}

#[test]
fn tracker_agrees_with_a_plain_model_under_strides() {
    let input = stream(5000, 2);
    compare(&input, [0, 1, 2, 3, 4, 5, 6, 7], 0, Vec::new(), &[5, 1, 2, 700, 3, 8, 9], 99);
    compare(&input, [7, 7, 3, 3, 1, 1, 0, 0], 3, Vec::new(), &[1, 1, 1, 1, 50], 99);
}

#[test]
fn tracker_agrees_with_a_plain_model_under_a_context_map() {
    let input = stream(4000, 3);
    let map: Vec<u8> = (0..128u32).map(|i| ((i * 7) % 256) as u8).collect();
    compare(&input, [2; 8], 1, map.clone(), &[300, 40, 7], 4);
    compare(&input, [9, 8, 250, 11, 12, 13, 14, 15], 2, map, &[64], 10);
}

#[test]
fn stride_model_finds_a_period() {
    // every fourth byte repeats; the bytes between are noise
    let mut state = 5u32;
    let input: Vec<u8> = (0..8000)
        .map(|i| {
            state = state.wrapping_mul(1664525).wrapping_add(1013904223);
            if i % 4 == 0 { b'A' } else { (state >> 24) as u8 }
        })
        .collect();
    let cost = |strides: [u8; 8]| {
        let mut m16 = HeapAlloc::<u16>::new(0);
        let map = PredictionModeContextMap {
            literal_context_map: Vec::new(),
            predmode_speed_and_distance_context_map: vec![0],
        };
        let mut t = ContextMapEntropy::new(&mut m16, InputPair(&input, &[]), strides, map, 1);
        t.push(Command::Literal(LiteralCommand { data: &input }));
        let cost = t.best_speeds_costs(false, false);
        t.free(&mut m16);
        cost[0] + cost[1]
    };
    assert!(cost([3; 8]) < cost([0; 8]));
    assert!(cost([3; 8]) < cost([2; 8]));
    assert_eq!(cost([3; 8]), cost([11; 8]));
}
