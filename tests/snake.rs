use bitwise_challenge_bddap::cheeky_encoding::{decode, encode, too_big};
use bitwise_challenge_bddap::snake::{
    from_state, make_state, rand, shift, Data, Direction, Turn, QUEUE_LEN,
};

#[test]
fn encode_decode_cardinality() {
    let max = Data::CARDINALITIES.map(|cardinality| cardinality - 1);
    assert_eq!(Data::from_u64s(max).to_u64s(), max);

    let encoded = encode(&max, &Data::CARDINALITIES);
    let decoded = decode(encoded, &Data::CARDINALITIES);
    assert_eq!(decoded, max);
}

#[test]
fn wasted_data() {
    let product = Data::CARDINALITIES
        .into_iter()
        .map(Into::<u128>::into)
        .product::<u128>();
    let available = u64::MAX as u128 / product;
    let bits: f64 = (available as f64).log2();
    assert_eq!(
        available, 1,
        "you are wasting {bits} bits, {available} available values"
    );
    // dubious correctness ---^, it's at least close to correct
}

#[test]
fn parameterized_turns() {
    let test_cases = [
        (Direction::East, Direction::North, Some(Turn::Left)),
        (Direction::North, Direction::West, Some(Turn::Left)),
        (Direction::West, Direction::South, Some(Turn::Left)),
        (Direction::South, Direction::East, Some(Turn::Left)),
        (Direction::East, Direction::South, Some(Turn::Right)),
        (Direction::North, Direction::East, Some(Turn::Right)),
        (Direction::West, Direction::North, Some(Turn::Right)),
        (Direction::South, Direction::West, Some(Turn::Right)),
        (Direction::East, Direction::East, Some(Turn::Straight)),
        (Direction::North, Direction::North, Some(Turn::Straight)),
        (Direction::West, Direction::West, Some(Turn::Straight)),
        (Direction::South, Direction::South, Some(Turn::Straight)),
        (Direction::East, Direction::West, None),
        (Direction::North, Direction::South, None),
        (Direction::West, Direction::East, None),
        (Direction::South, Direction::North, None),
    ];

    for (from, to, expected) in test_cases {
        assert_eq!(
            from.relative(to),
            expected,
            "Testing from {from:?} to {to:?}",
        );
    }
}

#[test]
fn game_shape_fits_in_a_word() {
    assert!(!too_big(&Data::CARDINALITIES));
    let product: u128 = Data::CARDINALITIES.iter().map(|&c| c as u128).product();
    assert_eq!(product, 18115979433133916160);
}

#[test]
fn turns_and_headings() {
    assert_eq!(Turn::Left.mirror(), Turn::Right);
    assert_eq!(Turn::Straight.mirror(), Turn::Straight);
    assert_eq!(Turn::Right.mirror(), Turn::Left);
    assert_eq!(Turn::from_digit(2), Turn::Right);
    assert_eq!(Turn::Left.digit(), 0);
    assert_eq!(Direction::from_digit(6), Direction::West);
    assert_eq!(Direction::South.digit(), 3);
    assert_eq!(Direction::North.reverse(), Direction::South);
    assert_eq!(Direction::East.turned(Turn::Left), Direction::South);
    assert_eq!(Direction::East.turned(Turn::Right), Direction::North);
    assert_eq!(Direction::South.turned(Turn::Straight), Direction::South);
    assert_eq!(Direction::North.front(), [0, -1]);
    assert_eq!(Direction::West.front(), [-1, 0]);
}

#[test]
fn shift_wraps_round_the_edges() {
    assert_eq!(shift([0, 0], Direction::West), [7, 0]);
    assert_eq!(shift([7, 3], Direction::East), [0, 3]);
    assert_eq!(shift([2, 0], Direction::North), [2, 7]);
    assert_eq!(shift([2, 7], Direction::South), [2, 0]);
    assert_eq!(shift([4, 4], Direction::East), [5, 4]);
}

#[test]
fn rand_is_a_fixed_scramble() {
    assert_eq!(rand(0), 8302085277);
    assert_eq!(rand(1), 8483685659);
    assert_eq!(rand(3), 8848165058);
}

#[test]
fn fruit_follows_the_score() {
    let mut data = Data::default();
    assert_eq!(data.fruit_pos(), [5, 3]);
    data.score = 2;
    assert_eq!(data.fruit_pos(), [0, 3]);
}

#[test]
fn new_game_state() {
    let data = Data::default();
    assert_eq!(data.pos, [4, 4]);
    assert_eq!(data.dir, Direction::East);
    assert_eq!(data.score, 0);
    assert!(!data.is_dead);
    assert_eq!(data.input_q_len, 0);
    assert_eq!(data.segment_positions(), vec![[4, 4]]);
}

#[test]
fn state_word_round_trip() {
    let mut data = Data::default();
    data.pos = [7, 2];
    data.dir = Direction::South;
    data.score = 19;
    data.tail[3] = Turn::Left;
    data.tail[18] = Turn::Right;
    data.is_dead = true;
    data.input_q[0] = Turn::Right;
    data.input_q_len = 1;
    data.pad = 28;
    assert_eq!(from_state(make_state(data)), data);
    assert_eq!(from_state(make_state(Data::default())), Data::default());
}

#[test]
fn queue_holds_at_most_seven_turns() {
    let mut data = Data::default();
    for _ in 0..10 {
        data.enqueue_turn(Turn::Left);
    }
    assert_eq!(data.input_q_len as usize, QUEUE_LEN - 1);
    // seven quarter turns clockwise from east
    assert_eq!(data.future_dir(), Direction::North);
}

#[test]
fn dequeue_takes_oldest_turn_first() {
    let mut data = Data::default();
    assert_eq!(data.dequeue_turn(), Turn::Straight);
    data.enqueue_turn(Turn::Left);
    data.enqueue_turn(Turn::Right);
    assert_eq!(data.future_dir(), Direction::East);
    assert_eq!(data.dequeue_turn(), Turn::Left);
    assert_eq!(data.input_q_len, 1);
    assert_eq!(data.input_q[0], Turn::Right);
    assert_eq!(data.input_q[QUEUE_LEN - 1], Turn::Left);
    assert_eq!(data.dequeue_turn(), Turn::Right);
    assert_eq!(data.dequeue_turn(), Turn::Straight);
}

#[test]
fn arrow_keys_queue_turns() {
    let mut data = Data::default();
    data.handle_input(&[
        Some(Direction::North),
        Some(Direction::South),
        Some(Direction::West),
        None,
        Some(Direction::South),
    ]);
    // North from East is a right turn; South is then the reverse and asks
    // for nothing; West from North is a right turn; the key that is not an
    // arrow stops the rest.
    assert_eq!(data.input_q_len, 2);
    assert_eq!(data.input_q[0], Turn::Right);
    assert_eq!(data.input_q[1], Turn::Right);
    assert_eq!(data.future_dir(), Direction::West);
}

#[test]
fn live_snake_moves_on_sixteenth_tick() {
    let mut data = Data::default();
    data.update(5);
    assert_eq!(data, Data::default());
    data.enqueue_turn(Turn::Right);
    data.update(16);
    assert_eq!(data.dir, Direction::North);
    assert_eq!(data.pos, [4, 3]);
    assert_eq!(data.tail[0], Turn::Left);
    assert_eq!(data.input_q_len, 0);
    assert!(!data.is_dead);
}

#[test]
fn snake_eats_fruit_under_its_head() {
    let mut data = Data::default();
    data.pos = [5, 3];
    data.update(1);
    assert_eq!(data.score, 1);
    assert_eq!(data.segment_positions(), vec![[5, 3], [4, 3]]);
}

#[test]
fn snake_dies_on_its_tail() {
    let mut data = Data::default();
    data.score = 4;
    data.tail = [Turn::Right; 19];
    data.pos = [1, 1];
    data.update(1);
    // the tail bends round in a square back onto the head
    assert_eq!(data.segment_positions()[4], [1, 1]);
    assert!(data.is_dead);
}

#[test]
fn dead_snake_shrinks_then_restarts() {
    let mut data = Data::default();
    data.is_dead = true;
    data.score = 2;
    data.pos = [1, 6];
    data.update(7);
    assert_eq!(data.score, 2);
    data.update(10);
    assert_eq!(data.score, 1);
    assert_eq!(data.pos, [1, 6]);
    data.update(20);
    assert_eq!(data.score, 0);
    data.update(30);
    assert_eq!(data, Data::default());
}
