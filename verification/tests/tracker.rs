use alloc_no_stdlib::HeapAlloc;
use brotli_cost::context_map_entropy::{speed_to_tuple, ContextMapEntropy, SpeedAndMax};
use brotli_cost::interface::{
    BlockSwitch, Command, CopyCommand, DictCommand, InputPair, LiteralBlockSwitch,
    LiteralCommand, PredictionModeContextMap,
};

fn context_map(mode: u8) -> PredictionModeContextMap {
    PredictionModeContextMap {
        literal_context_map: Vec::new(),
        predmode_speed_and_distance_context_map: vec![mode],
    }
}

fn tracker<'a>(m16: &mut HeapAlloc<u16>, input: &'a [u8], mode: u8) -> ContextMapEntropy<'a> {
    ContextMapEntropy::new(m16, InputPair(input, &[]), [0u8; 8], context_map(mode), 1)
}

fn walk(t: &mut ContextMapEntropy, input: &[u8]) {
    let command = Command::Literal(LiteralCommand { data: input });
    assert!(t.accepts(&command));
    t.push(command);
}

fn two_phases(input: &[u8], mode: u8) -> ([(u16, u16); 2], [(u16, u16); 2], [(u16, u16); 2], [i128; 2]) {
    let mut m16 = HeapAlloc::<u16>::new(0);
    let mut t = tracker(&mut m16, input, mode);
    walk(&mut t, input);
    t.finish_phase0();
    walk(&mut t, input);
    let result = (
        speed_to_tuple(t.best_speeds(true, false)),
        speed_to_tuple(t.best_speeds(false, false)),
        speed_to_tuple(t.best_speeds(false, true)),
        t.best_speeds_costs(false, true),
    );
    t.free(&mut m16);
    result
}

fn skewed(len: usize) -> Vec<u8> {
    let mut state = 99u32;
    (0..len)
        .map(|_| {
            state = state.wrapping_mul(1664525).wrapping_add(1013904223);
            if (state >> 16) % 10 == 0 { (state >> 24) as u8 } else { b'e' }
        })
        .collect()
}

fn uniform(len: usize) -> Vec<u8> {
    let mut state = 4242u32;
    (0..len)
        .map(|_| {
            state = state.wrapping_mul(1664525).wrapping_add(1013904223);
            (state >> 24) as u8
        })
        .collect()
}

#[test]
fn first_literal_costs_four_bits_per_nibble() {
    let input = [0x5au8];
    let mut m16 = HeapAlloc::<u16>::new(0);
    let mut t = tracker(&mut m16, &input, 0);
    walk(&mut t, &input);
    assert_eq!(t.best_speeds_costs(true, false), [4 * 65536, 4 * 65536]);
    assert_eq!(t.best_speeds_costs(false, false), [4 * 65536, 4 * 65536]);
    assert_eq!(t.best_speeds_costs(false, true), [0, 0]);
    assert_eq!(speed_to_tuple(t.best_speeds(true, false)), [(0, 32), (0, 32)]);
    assert_eq!(t.byte_offset(), 1);
}

#[test]
fn counters_learn_between_literals() {
    let input = [0x33u8; 64];
    let mut m16 = HeapAlloc::<u16>::new(0);
    let mut t = tracker(&mut m16, &input, 0);
    walk(&mut t, &input);
    let (speeds, costs) = t.best_singleton_speeds(true, false);
    assert!(costs[0] < 64 * 2 * 65536);
    assert!(costs[1] < 64 * 2 * 65536);
    assert_eq!(costs, t.best_speeds_costs(true, false));
    assert_eq!(speed_to_tuple(speeds), speed_to_tuple(t.best_speeds(true, false)));
    assert!(speeds[0].0 >= 128);
}

#[test]
fn two_runs_pick_the_same_speeds() {
    let input = skewed(3000);
    assert_eq!(two_phases(&input, 2), two_phases(&input, 2));
    let input = uniform(3000);
    assert_eq!(two_phases(&input, 3), two_phases(&input, 3));
}

#[test]
fn skewed_stream_is_cheaper_than_uniform() {
    let len = 4000;
    let mut m16 = HeapAlloc::<u16>::new(0);
    let a = skewed(len);
    let mut t = tracker(&mut m16, &a, 0);
    walk(&mut t, &a);
    let skewed_cost = t.best_speeds_costs(true, false);
    let b = uniform(len);
    let mut u = tracker(&mut m16, &b, 0);
    walk(&mut u, &b);
    let uniform_cost = u.best_speeds_costs(true, false);
    assert!(skewed_cost[0] < uniform_cost[0]);
    assert!(skewed_cost[1] < uniform_cost[1]);
}

#[test]
fn commands_come_back_unchanged() {
    let input = [1u8, 2, 3, 4, 5, 6, 7, 8];
    let mut m16 = HeapAlloc::<u16>::new(0);
    let mut t = tracker(&mut m16, &input, 1);
    match t.push(Command::Copy(CopyCommand { distance: 7, num_bytes: 2 })) {
        Command::Copy(c) => assert_eq!((c.distance, c.num_bytes), (7, 2)),
        _ => panic!("not a copy"),
    }
    assert_eq!(t.byte_offset(), 2);
    match t.push(Command::Dict(DictCommand {
        word_size: 4,
        transform: 1,
        final_size: 3,
        empty: 0,
        word_id: 77,
    })) {
        Command::Dict(d) => {
            assert_eq!((d.word_size, d.transform, d.final_size, d.empty, d.word_id), (4, 1, 3, 0, 77))
        }
        _ => panic!("not a dictionary word"),
    }
    assert_eq!(t.byte_offset(), 5);
    match t.push(Command::Literal(LiteralCommand { data: &input[5..] })) {
        Command::Literal(l) => assert_eq!(l.data, &[6u8, 7, 8]),
        _ => panic!("not a literal"),
    }
    assert_eq!(t.byte_offset(), 8);
    match t.push(Command::BlockSwitchLiteral(LiteralBlockSwitch(BlockSwitch(3), 1))) {
        Command::BlockSwitchLiteral(s) => assert_eq!((s.block_type(), s.1), (3, 1)),
        _ => panic!("not a literal block switch"),
    }
    match t.push(Command::BlockSwitchCommand(BlockSwitch(2))) {
        Command::BlockSwitchCommand(s) => assert_eq!(s.0, 2),
        _ => panic!("not a command block switch"),
    }
    match t.push(Command::BlockSwitchDistance(BlockSwitch(1))) {
        Command::BlockSwitchDistance(s) => assert_eq!(s.0, 1),
        _ => panic!("not a distance block switch"),
    }
    match t.push(Command::PredictionMode(context_map(2))) {
        Command::PredictionMode(p) => {
            assert_eq!(p.predmode_speed_and_distance_context_map, vec![2u8])
        }
        _ => panic!("not a prediction mode"),
    }
    assert_eq!(t.byte_offset(), 8);
    t.finish_phase0();
    assert_eq!(t.byte_offset(), 0);
    match t.push(Command::Literal(LiteralCommand { data: &input[..2] })) {
        Command::Literal(l) => assert_eq!(l.data, &[1u8, 2]),
        _ => panic!("not a literal"),
    }
    assert_eq!(t.byte_offset(), 2);
}

#[test]
fn finish_starts_the_second_phase() {
    let input = skewed(500);
    let mut m16 = HeapAlloc::<u16>::new(0);
    let mut t = tracker(&mut m16, &input, 0);
    assert!(!t.is_refining());
    walk(&mut t, &input);
    let cm_before = t.best_speeds_costs(true, false);
    let stride_before = t.best_speeds_costs(false, false);
    assert_eq!(t.best_speeds_costs(false, true), [0, 0]);
    t.finish_phase0();
    assert!(t.is_refining());
    assert_eq!(t.byte_offset(), 0);
    walk(&mut t, &input);
    assert_eq!(t.best_speeds_costs(true, false), cm_before);
    let combined = t.best_speeds_costs(false, true);
    assert!(combined[0] > 0 && combined[1] > 0);
    let stride_after = t.best_speeds_costs(false, false);
    assert!(stride_after[0] > stride_before[0]);
    assert!(stride_after[1] > stride_before[1]);
}

#[test]
fn tracker_without_counters_takes_no_literals() {
    let input = [1u8, 2, 3];
    let mut m16 = HeapAlloc::<u16>::new(0);
    let mut t = ContextMapEntropy::new(&mut m16, InputPair(&input, &[]), [0u8; 8], context_map(0), 0);
    assert!(!t.is_enabled());
    assert!(!t.accepts(&Command::Literal(LiteralCommand { data: &input })));
    assert!(t.accepts(&Command::Copy(CopyCommand { distance: 1, num_bytes: 3 })));
    t.push(Command::Copy(CopyCommand { distance: 1, num_bytes: 3 }));
    assert_eq!(t.byte_offset(), 3);
    assert_eq!(t.best_speeds_costs(true, false), [0, 0]);
}

#[test]
fn free_gives_the_counters_back() {
    let input = [9u8; 16];
    let mut m16 = HeapAlloc::<u16>::new(7);
    let mut t = tracker(&mut m16, &input, 0);
    assert!(t.is_enabled());
    walk(&mut t, &input[..8]);
    let costs = t.best_speeds_costs(true, false);
    t.free(&mut m16);
    assert!(!t.is_enabled());
    assert!(!t.accepts(&Command::Literal(LiteralCommand { data: &input[8..] })));
    assert_eq!(t.best_speeds_costs(true, false), costs);
}

#[test]
fn literals_need_a_cursor_inside_the_input() {
    let input = [1u8, 2, 3, 4];
    let mut m16 = HeapAlloc::<u16>::new(0);
    let mut t = tracker(&mut m16, &input, 0);
    walk(&mut t, &input);
    assert!(!t.accepts(&Command::Literal(LiteralCommand { data: &input })));
    assert!(!t.accepts(&Command::Copy(CopyCommand { distance: 1, num_bytes: u32::MAX }))
        || usize::MAX as u128 > u32::MAX as u128);
}

#[test]
fn literals_need_a_prediction_mode() {
    let input = [1u8, 2, 3, 4];
    let mut m16 = HeapAlloc::<u16>::new(0);
    let mut t = tracker(&mut m16, &input, 9);
    assert!(!t.accepts(&Command::Literal(LiteralCommand { data: &input })));
    t.prediction_mode_mut().predmode_speed_and_distance_context_map[0] = 3;
    assert!(t.accepts(&Command::Literal(LiteralCommand { data: &input })));
    let taken = t.take_prediction_mode();
    assert_eq!(taken.predmode_speed_and_distance_context_map, vec![3u8]);
    assert!(!t.accepts(&Command::Literal(LiteralCommand { data: &input })));
}

#[test]
fn tracking_outside_the_stream_changes_nothing() {
    let input = [1u8, 2, 3, 4];
    let mut m16 = HeapAlloc::<u16>::new(0);
    let mut t = tracker(&mut m16, &input, 0);
    walk(&mut t, &input[..2]);
    let costs = t.best_speeds_costs(true, false);
    t.track_cdf_speed(&input, 1, 2, 0);
    assert_eq!(t.best_speeds_costs(true, false), costs);
    assert_eq!(t.byte_offset(), 2);
}

#[test]
fn block_type_selects_the_context_map_row() {
    let input = [0x11u8; 32];
    let mut map = context_map(0);
    map.literal_context_map = vec![0u8; 128];
    for i in 64..128 {
        map.literal_context_map[i] = 5;
    }
    let mut m16 = HeapAlloc::<u16>::new(0);
    let mut t = ContextMapEntropy::new(&mut m16, InputPair(&input[..16], &input[16..]), [0u8; 8], map, 1);
    walk(&mut t, &input[..16]);
    let learned = t.best_speeds_costs(true, false);
    t.push(Command::BlockSwitchLiteral(LiteralBlockSwitch(BlockSwitch(1), 0)));
    walk(&mut t, &input[16..]);
    let after = t.best_speeds_costs(true, false);
    // the second half meets fresh rows, so it costs what the first half cost
    assert_eq!(after[0], 2 * learned[0]);
    assert_eq!(after[1], 2 * learned[1]);
}

#[test]
fn speed_pairs_are_plain_tuples() {
    assert_eq!(speed_to_tuple([SpeedAndMax(1, 2), SpeedAndMax(3, 4)]), [(1, 2), (3, 4)]);
}

#[test]
fn an_empty_run_of_literals_needs_no_counters() {
    let input = [1u8, 2, 3];
    let mut m16 = HeapAlloc::<u16>::new(0);
    let mut t = ContextMapEntropy::new(&mut m16, InputPair(&input, &[]), [0u8; 8], context_map(200), 0);
    let empty = Command::Literal(LiteralCommand { data: &[] });
    assert!(t.accepts(&empty));
    t.push(empty);
    assert_eq!(t.byte_offset(), 0);
    t.push(Command::Copy(CopyCommand { distance: 1, num_bytes: 3 }));
    assert!(!t.accepts(&Command::Literal(LiteralCommand { data: &[] })));
}
