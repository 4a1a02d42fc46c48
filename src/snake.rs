//! The state of a snake on a small wrapping grid, kept between frames as one
//! packed `u64`, and the rules that move it from one tick to the next.
//!
//! Drawing, the window and reading the keyboard belong to the program that
//! runs the game; it hands this module the keys pressed and the tick count.
use vstd::prelude::*;
use vstd::wrapping::u64_specs;
use crate::cheeky_encoding::{
    decode, decoded, encode, encoded, fits, in_range, lemma_round_trip, product,
};

verus! {

/// Side of the square grid, in cells.
pub const CELLS: u32 = 8;

/// Highest score; the tail has one segment per point.
pub const SCORE_MAX: u8 = 19;

/// Number of turns the tail remembers.
pub const TAIL_LEN: usize = 19;

/// Slots of the input queue. Its length is packed as a digit of cardinality
/// `QUEUE_LEN`, so at most `QUEUE_LEN - 1` turns can wait at once.
pub const QUEUE_LEN: usize = 8;

/// Number of digits the state is packed into.
pub const FIELD_COUNT: usize = 34;

/// A turn relative to the current heading.
#[derive(Clone, Copy, Debug, PartialEq, Eq, Structural)]
pub enum Turn {
    Left,
    Straight,
    Right,
}

impl Turn {
    /// The digit that stands for the turn when packed.
    pub open spec fn index(self) -> nat {
        match self {
            Turn::Left => 0,
            Turn::Straight => 1,
            Turn::Right => 2,
        }
    }

    /// The turn whose digit is `n` (0, 1 or 2).
    pub open spec fn of_index(n: int) -> Turn {
        if n == 0 {
            Turn::Left
        } else if n == 1 {
            Turn::Straight
        } else {
            Turn::Right
        }
    }

    /// The same turn seen from the opposite heading: left and right swap.
    pub fn mirror(&self) -> (r: Turn)
        ensures
            r.index() == 2 - self.index(),
    {
        match self {
            Turn::Left => Turn::Right,
            Turn::Straight => Turn::Straight,
            Turn::Right => Turn::Left,
        }
    }

    /// The turn packed as `value`.
    pub fn from_digit(value: u64) -> (r: Turn)
        requires
            value < 3,
        ensures
            r.index() == value,
    {
        if value == 0 {
            Turn::Left
        } else if value == 1 {
            Turn::Straight
        } else {
            Turn::Right
        }
    }

    /// The digit the turn is packed as.
    pub fn digit(self) -> (r: u64)
        ensures
            r == self.index(),
    {
        match self {
            Turn::Left => 0,
            Turn::Straight => 1,
            Turn::Right => 2,
        }
    }
}

/// A heading on the grid; `y` grows downwards.
#[derive(Clone, Copy, Debug, PartialEq, Eq, Structural)]
pub enum Direction {
    East,
    North,
    West,
    South,
}

impl Direction {
    /// The digit that stands for the heading when packed; successive
    /// headings are a quarter turn counterclockwise apart.
    pub open spec fn index(self) -> nat {
        match self {
            Direction::East => 0,
            Direction::North => 1,
            Direction::West => 2,
            Direction::South => 3,
        }
    }

    /// The heading whose digit is `n` modulo 4.
    pub open spec fn of_index(n: int) -> Direction {
        let m = n % 4;
        if m == 0 {
            Direction::East
        } else if m == 1 {
            Direction::North
        } else if m == 2 {
            Direction::West
        } else {
            Direction::South
        }
    }

    /// One step in this heading, as a change of `x` and of `y`.
    pub open spec fn offset(self) -> (int, int) {
        match self {
            Direction::East => (1, 0),
            Direction::North => (0, -1),
            Direction::West => (-1, 0),
            Direction::South => (0, 1),
        }
    }

    /// The heading after taking `turn`.
    pub open spec fn after(self, turn: Turn) -> Direction {
        Direction::of_index(self.index() + turn.index() + 3 as int)
    }

    /// The turn that leads from `other` to `self`; none when they are
    /// opposite.
    pub open spec fn turn_from(self, other: Direction) -> Option<Turn> {
        let n = (self.index() - other.index() + 5) % 4;
        if n == 3 {
            None
        } else {
            Some(Turn::of_index(n))
        }
    }

    /// The heading packed as `value`, taken modulo 4.
    pub fn from_digit(value: u64) -> (r: Direction)
        ensures
            r == Direction::of_index(value as int),
            r.index() == value % 4,
    {
        let m = value % 4;
        if m == 0 {
            Direction::East
        } else if m == 1 {
            Direction::North
        } else if m == 2 {
            Direction::West
        } else {
            Direction::South
        }
    }

    /// The digit the heading is packed as.
    pub fn digit(self) -> (r: u64)
        ensures
            r == self.index(),
    {
        match self {
            Direction::East => 0,
            Direction::North => 1,
            Direction::West => 2,
            Direction::South => 3,
        }
    }

    /// One step in this heading, as `[dx, dy]`.
    pub fn front(self) -> (r: [i32; 2])
        ensures
            r[0] == self.offset().0,
            r[1] == self.offset().1,
    {
        match self {
            Direction::East => [1, 0],
            Direction::North => [0, -1],
            Direction::West => [-1, 0],
            Direction::South => [0, 1],
        }
    }

    /// The turn that takes a snake heading `other` to heading `self`, or
    /// `None` when `self` is the reverse of `other`.
    pub fn relative(self, other: Direction) -> (r: Option<Turn>)
        ensures
            r == self.turn_from(other),
            r is None <==> self.index() == (other.index() + 2) % 4,
            r matches Some(t) ==> other.after(t) == self,
    {
        let diff = (self.digit() + 4 - other.digit()) % 4;
        if diff == 0 {
            Some(Turn::Straight)
        } else if diff == 1 {
            Some(Turn::Right)
        } else if diff == 2 {
            None
        } else {
            Some(Turn::Left)
        }
    }

    /// The opposite heading.
    pub fn reverse(self) -> (r: Direction)
        ensures
            r == Direction::of_index(self.index() + 2 as int),
    {
        Direction::from_digit(self.digit() + 2)
    }

    /// The heading after taking `turn`.
    pub fn turned(self, turn: Turn) -> (r: Direction)
        ensures
            r == self.after(turn),
    {
        Direction::from_digit(self.digit() + turn.digit() + 3)
    }
}

/// The state of one game, as it is packed between frames.
#[derive(Clone, Copy, Debug, PartialEq, Eq)]
pub struct Data {
    /// Head position, `[x, y]`, each below `CELLS`.
    pub pos: [u32; 2],
    /// Heading of the head.
    pub dir: Direction,
    /// Points scored; also the number of tail segments.
    pub score: u8,
    /// Turns from each segment to the next one behind it, nearest first.
    pub tail: [Turn; TAIL_LEN],
    pub is_dead: bool,
    /// Turns waiting to be taken, oldest first; the first `input_q_len` count,
    /// and that is below `QUEUE_LEN`.
    pub input_q: [Turn; QUEUE_LEN],
    pub input_q_len: u8,
    /// Spare digit that fills the rest of the `u64`.
    pub pad: u64,
}

/// The digits that stand for a sequence of turns.
pub open spec fn turn_digits(turns: Seq<Turn>) -> Seq<u64> {
    turns.map_values(|t: Turn| t.index() as u64)
}

impl Data {
    /// The cardinality of each packed field, in packing order.
    pub const CARDINALITIES: [u64; FIELD_COUNT] = [
        8, 8, 4, 20, 3, 3, 3, 3, 3, 3, 3, 3, 3, 3, 3, 3, 3, 3, 3, 3, 3, 3, 3, 2, 3, 3, 3, 3, 3,
        3, 3, 3, 8, 29,
    ];

    /// Every field is within what its digit can hold.
    pub open spec fn wf(self) -> bool {
        &&& self.pos[0] < CELLS
        &&& self.pos[1] < CELLS
        &&& self.score <= SCORE_MAX
        &&& self.input_q_len < QUEUE_LEN
        &&& self.pad < 29
    }

    /// The fields as digits, in packing order.
    pub open spec fn digits(self) -> Seq<u64> {
        seq![self.pos[0] as u64, self.pos[1] as u64, self.dir.index() as u64, self.score as u64]
            + turn_digits(self.tail@) + seq![if self.is_dead { 1u64 } else { 0u64 }]
            + turn_digits(self.input_q@) + seq![self.input_q_len as u64, self.pad]
    }

    /// The fields as digits, in packing order.
    pub fn to_u64s(&self) -> (r: [u64; FIELD_COUNT])
        ensures
            r@ == self.digits(),
    {
        let t = &self.tail;
        let q = &self.input_q;
        let r = [
            self.pos[0] as u64,
            self.pos[1] as u64,
            self.dir.digit(),
            self.score as u64,
            t[0].digit(),
            t[1].digit(),
            t[2].digit(),
            t[3].digit(),
            t[4].digit(),
            t[5].digit(),
            t[6].digit(),
            t[7].digit(),
            t[8].digit(),
            t[9].digit(),
            t[10].digit(),
            t[11].digit(),
            t[12].digit(),
            t[13].digit(),
            t[14].digit(),
            t[15].digit(),
            t[16].digit(),
            t[17].digit(),
            t[18].digit(),
            self.is_dead as u64,
            q[0].digit(),
            q[1].digit(),
            q[2].digit(),
            q[3].digit(),
            q[4].digit(),
            q[5].digit(),
            q[6].digit(),
            q[7].digit(),
            self.input_q_len as u64,
            self.pad,
        ];
        assert(r@ =~= self.digits());
        r
    }

    /// The state whose fields are the digits `data`.
    #[verifier::rlimit(40)]
    pub fn from_u64s(data: [u64; FIELD_COUNT]) -> (r: Data)
        requires
            in_range(data@, Data::CARDINALITIES@),
        ensures
            r.wf(),
            r.digits() == data@,
    {
        let d = &data;
        let r = Data {
            pos: [d[0] as u32, d[1] as u32],
            dir: Direction::from_digit(d[2]),
            score: d[3] as u8,
            tail: [
                Turn::from_digit(d[4]),
                Turn::from_digit(d[5]),
                Turn::from_digit(d[6]),
                Turn::from_digit(d[7]),
                Turn::from_digit(d[8]),
                Turn::from_digit(d[9]),
                Turn::from_digit(d[10]),
                Turn::from_digit(d[11]),
                Turn::from_digit(d[12]),
                Turn::from_digit(d[13]),
                Turn::from_digit(d[14]),
                Turn::from_digit(d[15]),
                Turn::from_digit(d[16]),
                Turn::from_digit(d[17]),
                Turn::from_digit(d[18]),
                Turn::from_digit(d[19]),
                Turn::from_digit(d[20]),
                Turn::from_digit(d[21]),
                Turn::from_digit(d[22]),
            ],
            is_dead: d[23] == 1,
            input_q: [
                Turn::from_digit(d[24]),
                Turn::from_digit(d[25]),
                Turn::from_digit(d[26]),
                Turn::from_digit(d[27]),
                Turn::from_digit(d[28]),
                Turn::from_digit(d[29]),
                Turn::from_digit(d[30]),
                Turn::from_digit(d[31]),
            ],
            input_q_len: d[32] as u8,
            pad: d[33],
        };
        assert(r.digits() =~= data@);
        r
    }
}

proof fn lemma_prefix_step(c: Seq<u64>, k: int)
    requires
        0 <= k < c.len(),
    ensures
        product(c.subrange(0, k + 1)) == product(c.subrange(0, k)) * c[k],
{
    assert(c.subrange(0, k + 1).drop_last() =~= c.subrange(0, k));
}

/// The game's shape has no zero cardinality and describes
/// 18115979433133916160 states, which fits in a `u64` with less than one
/// bit to spare.
pub proof fn lemma_shape_fits()
    ensures
        fits(Data::CARDINALITIES@),
        product(Data::CARDINALITIES@) == 18115979433133916160,
{
    let c = Data::CARDINALITIES@;
    assert(c.subrange(0, 0) =~= Seq::<u64>::empty());
        lemma_prefix_step(c, 0);
        lemma_prefix_step(c, 1);
        lemma_prefix_step(c, 2);
        lemma_prefix_step(c, 3);
        lemma_prefix_step(c, 4);
        lemma_prefix_step(c, 5);
        lemma_prefix_step(c, 6);
        lemma_prefix_step(c, 7);
        lemma_prefix_step(c, 8);
        lemma_prefix_step(c, 9);
        lemma_prefix_step(c, 10);
        lemma_prefix_step(c, 11);
        lemma_prefix_step(c, 12);
        lemma_prefix_step(c, 13);
        lemma_prefix_step(c, 14);
        lemma_prefix_step(c, 15);
        lemma_prefix_step(c, 16);
        lemma_prefix_step(c, 17);
        lemma_prefix_step(c, 18);
        lemma_prefix_step(c, 19);
        lemma_prefix_step(c, 20);
        lemma_prefix_step(c, 21);
        lemma_prefix_step(c, 22);
        lemma_prefix_step(c, 23);
        lemma_prefix_step(c, 24);
        lemma_prefix_step(c, 25);
        lemma_prefix_step(c, 26);
        lemma_prefix_step(c, 27);
        lemma_prefix_step(c, 28);
        lemma_prefix_step(c, 29);
        lemma_prefix_step(c, 30);
        lemma_prefix_step(c, 31);
        lemma_prefix_step(c, 32);
        lemma_prefix_step(c, 33);
    assert(c.subrange(0, 34) =~= c);
}

/// A well-formed state's digits are a tuple of the game's shape.
pub proof fn lemma_wf_digits_in_range(data: Data)
    requires
        data.wf(),
    ensures
        in_range(data.digits(), Data::CARDINALITIES@),
{
    let (d, c) = (data.digits(), Data::CARDINALITIES@);
    assert forall|i: int| 0 <= i < d.len() implies d[i] < c[i] by {
        if 4 <= i < 23 {
            assert(d[i] == data.tail@[i - 4].index());
            assert(c[i] == 3) by {
                lemma_run_of_threes(i);
            }
        } else if 24 <= i < 32 {
            assert(d[i] == data.input_q@[i - 24].index());
            assert(c[i] == 3) by {
                lemma_run_of_threes(i);
            }
        } else {
            assert(d[0] == data.pos[0] && d[1] == data.pos[1] && d[2] == data.dir.index());
            assert(d[3] == data.score && d[32] == data.input_q_len && d[33] == data.pad);
            assert(d[23] <= 1);
            assert(c[0] == 8 && c[1] == 8 && c[2] == 4 && c[3] == 20);
            assert(c[23] == 2 && c[32] == 8 && c[33] == 29);
            assert(i == 0 || i == 1 || i == 2 || i == 3 || i == 23 || i == 32 || i == 33);
        }
    }
}

/// The cardinality of every turn digit is 3.
proof fn lemma_run_of_threes(i: int)
    requires
        4 <= i < 23 || 24 <= i < 32,
    ensures
        Data::CARDINALITIES@[i] == 3,
{
    let c = Data::CARDINALITIES@;
    if i == 4 {
        assert(c[4] == 3);
    } else if i == 5 {
        assert(c[5] == 3);
    } else if i == 6 {
        assert(c[6] == 3);
    } else if i == 7 {
        assert(c[7] == 3);
    } else if i == 8 {
        assert(c[8] == 3);
    } else if i == 9 {
        assert(c[9] == 3);
    } else if i == 10 {
        assert(c[10] == 3);
    } else if i == 11 {
        assert(c[11] == 3);
    } else if i == 12 {
        assert(c[12] == 3);
    } else if i == 13 {
        assert(c[13] == 3);
    } else if i == 14 {
        assert(c[14] == 3);
    } else if i == 15 {
        assert(c[15] == 3);
    } else if i == 16 {
        assert(c[16] == 3);
    } else if i == 17 {
        assert(c[17] == 3);
    } else if i == 18 {
        assert(c[18] == 3);
    } else if i == 19 {
        assert(c[19] == 3);
    } else if i == 20 {
        assert(c[20] == 3);
    } else if i == 21 {
        assert(c[21] == 3);
    } else if i == 22 {
        assert(c[22] == 3);
    } else if i == 24 {
        assert(c[24] == 3);
    } else if i == 25 {
        assert(c[25] == 3);
    } else if i == 26 {
        assert(c[26] == 3);
    } else if i == 27 {
        assert(c[27] == 3);
    } else if i == 28 {
        assert(c[28] == 3);
    } else if i == 29 {
        assert(c[29] == 3);
    } else if i == 30 {
        assert(c[30] == 3);
    } else {
        assert(c[31] == 3);
    }
}

/// Two states with the same digits are the same state.
pub proof fn lemma_digits_determine_state(a: Data, b: Data)
    requires
        a.digits() == b.digits(),
    ensures
        a == b,
{
    let (da, db) = (a.digits(), b.digits());
    assert forall|i: int| 0 <= i < TAIL_LEN implies a.tail[i] == b.tail[i] by {
        assert(da[4 + i] == db[4 + i]);
    }
    assert forall|i: int| 0 <= i < QUEUE_LEN implies a.input_q[i] == b.input_q[i] by {
        assert(da[24 + i] == db[24 + i]);
    }
    assert(da[0] == db[0] && da[1] == db[1] && da[2] == db[2] && da[3] == db[3]);
    assert(da[23] == db[23] && da[32] == db[32] && da[33] == db[33]);
    assert(a.tail =~= b.tail);
    assert(a.input_q =~= b.input_q);
    assert(a.pos =~= b.pos);
}

/// A well-formed state packed with `make_state` is read back unchanged by
/// `from_state`: the state read back from its packed value is the state.
pub proof fn lemma_state_round_trip(data: Data, read_back: Data)
    requires
        data.wf(),
        read_back.digits() == decoded(
            encoded(data.digits(), Data::CARDINALITIES@),
            Data::CARDINALITIES@,
        ),
    ensures
        read_back == data,
{
    lemma_shape_fits();
    lemma_wf_digits_in_range(data);
    lemma_round_trip(data.digits(), Data::CARDINALITIES@);
    lemma_digits_determine_state(read_back, data);
}

/// Packs a well-formed state into one `u64`.
pub fn make_state(data: Data) -> (r: u64)
    requires
        data.wf(),
    ensures
        r == encoded(data.digits(), Data::CARDINALITIES@),
{
    proof {
        lemma_shape_fits();
        lemma_wf_digits_in_range(data);
    }
    let digits = data.to_u64s();
    encode(&digits, &Data::CARDINALITIES)
}

/// Reads a state back from its packed `u64`.
pub fn from_state(state: u64) -> (r: Data)
    ensures
        r.wf(),
        r.digits() == decoded(state as int, Data::CARDINALITIES@),
{
    proof {
        lemma_shape_fits();
    }
    Data::from_u64s(decode(state, &Data::CARDINALITIES))
}

/// A pseudo-random number drawn from `seed`; the same seed always gives the
/// same number.
pub open spec fn pseudo_random(seed: u64) -> u64 {
    let x = u64_specs::wrapping_add(u64_specs::wrapping_mul(seed, 182099923) ^ seed, 8301719803)
        ^ seed;
    x ^ seed ^ (x / 21273)
}

/// Draws the pseudo-random number of `seed`.
pub fn rand(seed: u64) -> (r: u64)
    ensures
        r == pseudo_random(seed),
{
    let x = (seed.wrapping_mul(182099923) ^ seed).wrapping_add(8301719803) ^ seed;
    x ^ seed ^ (x / 21273)
}

/// The cell one step from `p` in heading `dir`, wrapping round the edges.
pub open spec fn shifted(p: (int, int), dir: Direction) -> (int, int) {
    (
        (p.0 + dir.offset().0 + CELLS) % (CELLS as int),
        (p.1 + dir.offset().1 + CELLS) % (CELLS as int),
    )
}

/// A position as a pair of integers.
pub open spec fn cell(p: [u32; 2]) -> (int, int) {
    (p[0] as int, p[1] as int)
}

/// The cell one step from `pos` in heading `dir`, wrapping round the edges.
pub fn shift(pos: [u32; 2], dir: Direction) -> (r: [u32; 2])
    requires
        pos[0] < CELLS,
        pos[1] < CELLS,
    ensures
        cell(r) == shifted(cell(pos), dir),
        r[0] < CELLS,
        r[1] < CELLS,
{
    let d = dir.front();
    let ce = CELLS as i32;
    let x = pos[0] as i32 + d[0];
    let y = pos[1] as i32 + d[1];
    [((x + ce) % ce) as u32, ((y + ce) % ce) as u32]
}

impl Turn {
    /// The same turn seen from the opposite heading.
    pub open spec fn mirrored(self) -> Turn {
        Turn::of_index(2 - self.index())
    }
}

/// The heading reached from `dir` after taking `turns` in order.
pub open spec fn steer(dir: Direction, turns: Seq<Turn>) -> Direction
    decreases turns.len(),
{
    if turns.len() == 0 {
        dir
    } else {
        steer(dir, turns.drop_last()).after(turns.last())
    }
}

impl Data {
    /// The state a new game starts in: the head in the middle heading east,
    /// no score, a straight tail and no turns waiting.
    pub open spec fn is_initial(self) -> bool {
        &&& self.pos[0] == 4
        &&& self.pos[1] == 4
        &&& self.dir == Direction::East
        &&& self.score == 0
        &&& forall|i: int| 0 <= i < TAIL_LEN ==> self.tail[i] == Turn::Straight
        &&& !self.is_dead
        &&& forall|i: int| 0 <= i < QUEUE_LEN ==> self.input_q[i] == Turn::Straight
        &&& self.input_q_len == 0
        &&& self.pad == 0
    }

    /// The turns waiting in the queue, oldest first.
    pub open spec fn queue(self) -> Seq<Turn> {
        self.input_q@.take(self.input_q_len as int)
    }

    /// The turn the next step takes: the oldest waiting one, else straight on.
    pub open spec fn next_turn(self) -> Turn {
        if self.input_q_len == 0 {
            Turn::Straight
        } else {
            self.input_q[0]
        }
    }

    /// The cell of the head.
    pub open spec fn head(self) -> (int, int) {
        cell(self.pos)
    }

    /// The cell where the fruit lies; it depends on the score alone.
    pub open spec fn fruit(self) -> (int, int) {
        let r = pseudo_random(self.score as u64) as u32;
        ((r % CELLS) as int, ((r / CELLS) % CELLS) as int)
    }

    /// The fields other than the input queue are those of `other`.
    pub open spec fn same_but_queue(self, other: Data) -> bool {
        &&& self.pos == other.pos
        &&& self.dir == other.dir
        &&& self.score == other.score
        &&& self.tail == other.tail
        &&& self.is_dead == other.is_dead
        &&& self.pad == other.pad
    }

    /// Where the fruit lies, as `[x, y]`.
    pub fn fruit_pos(&self) -> (r: [u32; 2])
        ensures
            cell(r) == self.fruit(),
            r[0] < CELLS,
            r[1] < CELLS,
    {
        let r = rand(self.score as u64) as u32;
        let x = r % CELLS;
        let y = (r / CELLS) % CELLS;
        [x, y]
    }

    /// Queues `inp` behind the turns already waiting, unless the queue is
    /// full.
    pub fn enqueue_turn(&mut self, inp: Turn)
        requires
            old(self).wf(),
        ensures
            final(self).wf(),
            final(self).same_but_queue(*old(self)),
            old(self).input_q_len + 1 < QUEUE_LEN ==> {
                &&& final(self).input_q@ == old(self).input_q@.update(
                    old(self).input_q_len as int,
                    inp,
                )
                &&& final(self).input_q_len == old(self).input_q_len + 1
            },
            old(self).input_q_len + 1 >= QUEUE_LEN ==> {
                &&& final(self).input_q == old(self).input_q
                &&& final(self).input_q_len == old(self).input_q_len
            },
            final(self).queue() == (if old(self).input_q_len + 1 < QUEUE_LEN {
                old(self).queue().push(inp)
            } else {
                old(self).queue()
            }),
    {
        if self.input_q_len as usize + 1 >= QUEUE_LEN {
            return;
        }
        let ghost before = self.input_q@;
        self.input_q[self.input_q_len as usize] = inp;
        self.input_q_len = self.input_q_len + 1;
        assert(self.queue() =~= before.take(self.input_q_len - 1).push(inp));
    }

    /// Takes the oldest waiting turn off the queue; straight on when none
    /// waits. The slots of the queue rotate left by one.
    pub fn dequeue_turn(&mut self) -> (r: Turn)
        requires
            old(self).wf(),
        ensures
            final(self).wf(),
            final(self).same_but_queue(*old(self)),
            r == old(self).next_turn(),
            old(self).input_q_len == 0 ==> final(self).input_q == old(self).input_q
                && final(self).input_q_len == 0,
            old(self).input_q_len > 0 ==> {
                &&& final(self).input_q@ == old(self).input_q@.skip(1).push(old(self).input_q[0])
                &&& final(self).input_q_len == old(self).input_q_len - 1
            },
            final(self).queue() == (if old(self).input_q_len == 0 {
                old(self).queue()
            } else {
                old(self).queue().skip(1)
            }),
    {
        if self.input_q_len == 0 {
            return Turn::Straight;
        }
        self.input_q_len = self.input_q_len - 1;
        let ret = self.input_q[0];
        let ghost before = self.input_q@;
        let mut i: usize = 0;
        while i + 1 < QUEUE_LEN
            invariant
                0 <= i < QUEUE_LEN,
                self.input_q@.len() == QUEUE_LEN,
                before.len() == QUEUE_LEN,
                before == old(self).input_q@,
                ret == before[0],
                self.input_q_len == old(self).input_q_len - 1,
                self.same_but_queue(*old(self)),
                forall|j: int| 0 <= j < i ==> self.input_q@[j] == before[j + 1],
                forall|j: int| i <= j < QUEUE_LEN ==> self.input_q@[j] == before[j],
            decreases QUEUE_LEN - i,
        {
            self.input_q[i] = self.input_q[i + 1];
            i = i + 1;
        }
        self.input_q[QUEUE_LEN - 1] = ret;
        assert(self.input_q@ =~= before.skip(1).push(ret));
        assert(self.queue() =~= before.take(self.input_q_len + 1).skip(1));
        ret
    }

    /// The heading once every waiting turn has been taken.
    pub fn future_dir(&self) -> (r: Direction)
        requires
            self.wf(),
        ensures
            r == steer(self.dir, self.queue()),
    {
        let mut future_dir = self.dir;
        let n = self.input_q_len as usize;
        let mut i: usize = 0;
        while i < n
            invariant
                0 <= i <= n,
                n == self.input_q_len,
                n < QUEUE_LEN,
                self.input_q@.len() == QUEUE_LEN,
                future_dir == steer(self.dir, self.input_q@.take(i as int)),
            decreases n - i,
        {
            assert(self.input_q@.take(i + 1).drop_last() =~= self.input_q@.take(i as int));
            future_dir = future_dir.turned(self.input_q[i]);
            i = i + 1;
        }
        assert(self.input_q@.take(i as int) =~= self.queue());
        future_dir
    }
}

impl Default for Data {
    /// A new game: see `Data::is_initial`.
    fn default() -> (r: Data)
        ensures
            r.is_initial(),
            r.wf(),
    {
        Data {
            pos: [4, 4],
            dir: Direction::East,
            score: 0,
            tail: [Turn::Straight; TAIL_LEN],
            is_dead: false,
            input_q: [Turn::Straight; QUEUE_LEN],
            input_q_len: 0,
            pad: 0,
        }
    }
}

/// The fruit's cell when the score is `score`.
pub open spec fn fruit_at(score: u8) -> (int, int) {
    let r = pseudo_random(score as u64) as u32;
    ((r % CELLS) as int, ((r / CELLS) % CELLS) as int)
}

/// The queue after one arrow key towards `key`: the turn from the heading
/// the queue leads to, if there is one and the queue has room.
pub open spec fn queue_with_key(queue: Seq<Turn>, dir: Direction, key: Direction) -> Seq<Turn> {
    match key.turn_from(steer(dir, queue)) {
        Some(t) => if queue.len() + 1 < QUEUE_LEN {
            queue.push(t)
        } else {
            queue
        },
        None => queue,
    }
}

/// The queue after the keys `keys` in order; `None` stands for a key that is
/// not an arrow, and it ends the handling of the keys after it.
pub open spec fn queue_after_keys(
    queue: Seq<Turn>,
    dir: Direction,
    keys: Seq<Option<Direction>>,
) -> Seq<Turn>
    decreases keys.len(),
{
    if keys.len() == 0 {
        queue
    } else {
        match keys[0] {
            None => queue,
            Some(key) => queue_after_keys(queue_with_key(queue, dir, key), dir, keys.skip(1)),
        }
    }
}

impl Data {
    /// The cell and heading reached by walking `k` segments back from the
    /// head along the tail.
    pub open spec fn walk(self, k: nat) -> ((int, int), Direction)
        decreases k,
    {
        if k == 0 {
            (self.head(), Direction::of_index(self.dir.index() + 2 as int))
        } else {
            let (p, d) = self.walk((k - 1) as nat);
            (shifted(p, d), d.after(self.tail[k - 1]))
        }
    }

    /// The cell of segment `k`; segment 0 is the head.
    pub open spec fn segment(self, k: nat) -> (int, int) {
        self.walk(k).0
    }

    /// Some segment of the tail lies on the head.
    pub open spec fn bites_itself(self) -> bool {
        exists|k: nat| 1 <= k <= self.score && #[trigger] self.segment(k) == self.head()
    }

    /// `self` is `prev` moved one cell: the oldest waiting turn (or straight
    /// on) is taken, the head steps forward, and the tail records the turn.
    pub open spec fn moved_from(self, prev: Data) -> bool {
        let t = prev.next_turn();
        &&& self.dir == prev.dir.after(t)
        &&& self.head() == shifted(prev.head(), self.dir)
        &&& self.tail@ == seq![t.mirrored()] + prev.tail@.take(TAIL_LEN - 1)
        &&& self.queue() == (if prev.input_q_len == 0 {
            prev.queue()
        } else {
            prev.queue().skip(1)
        })
        &&& prev.input_q_len == 0 ==> self.input_q == prev.input_q && self.input_q_len == 0
        &&& prev.input_q_len > 0 ==> {
            &&& self.input_q@ == prev.input_q@.skip(1).push(prev.input_q[0])
            &&& self.input_q_len == prev.input_q_len - 1
        }
    }

    /// The walk along the body reads only the head, the heading and the tail.
    proof fn lemma_walk_reads_body(self, other: Data, k: nat)
        requires
            self.pos == other.pos,
            self.dir == other.dir,
            self.tail == other.tail,
        ensures
            self.walk(k) == other.walk(k),
        decreases k,
    {
        if k > 0 {
            self.lemma_walk_reads_body(other, (k - 1) as nat);
        }
    }

    /// The cells of the head and of each tail segment, head first.
    pub fn segment_positions(&self) -> (r: Vec<[u32; 2]>)
        requires
            self.wf(),
        ensures
            r.len() == self.score + 1,
            forall|k: int| 0 <= k < r.len() ==> cell(#[trigger] r[k]) == self.segment(k as nat),
            forall|k: int| 0 <= k < r.len() ==> r[k][0] < CELLS && r[k][1] < CELLS,
    {
        let mut out: Vec<[u32; 2]> = Vec::new();
        out.push(self.pos);
        let mut pos = self.pos;
        let mut dir = self.dir.reverse();
        let n = self.score as usize;
        let mut i: usize = 0;
        while i < n
            invariant
                self.wf(),
                n == self.score,
                0 <= i <= n,
                out.len() == i + 1,
                pos[0] < CELLS && pos[1] < CELLS,
                (cell(pos), dir) == self.walk(i as nat),
                forall|k: int| 0 <= k <= i ==> cell(#[trigger] out[k]) == self.segment(k as nat),
                forall|k: int| 0 <= k <= i ==> out[k][0] < CELLS && out[k][1] < CELLS,
            decreases n - i,
        {
            pos = shift(pos, dir);
            dir = dir.turned(self.tail[i]);
            out.push(pos);
            i = i + 1;
        }
        out
    }

    /// Queues the turns that the arrow keys in `keys` ask for, in order,
    /// stopping at the first key that is not an arrow (`None`). A key asks
    /// for the turn from the heading the queue already leads to; a key for
    /// the reverse of that heading asks for nothing.
    pub fn handle_input(&mut self, keys: &[Option<Direction>])
        requires
            old(self).wf(),
        ensures
            final(self).wf(),
            final(self).same_but_queue(*old(self)),
            final(self).queue() == queue_after_keys(old(self).queue(), old(self).dir, keys@),
    {
        let mut i: usize = 0;
        assert(keys@.skip(0) =~= keys@);
        while i < keys.len()
            invariant
                0 <= i <= keys@.len(),
                self.wf(),
                self.same_but_queue(*old(self)),
                queue_after_keys(old(self).queue(), old(self).dir, keys@) == queue_after_keys(
                    self.queue(),
                    self.dir,
                    keys@.skip(i as int),
                ),
            decreases keys@.len() - i,
        {
            assert(keys@.skip(i as int).skip(1) =~= keys@.skip(i + 1));
            match keys[i] {
                None => {
                    return ;
                },
                Some(new_dir) => {
                    if let Some(turn) = new_dir.relative(self.future_dir()) {
                        self.enqueue_turn(turn);
                    }
                },
            }
            i = i + 1;
        }
        assert(keys@.skip(i as int) =~= Seq::<Option<Direction>>::empty());
    }

    /// Shifts the tail back by one segment and puts `turn` nearest the head.
    fn record_turn(&mut self, turn: Turn)
        ensures
            final(self).tail@ == seq![turn] + old(self).tail@.take(TAIL_LEN - 1),
            final(self).pos == old(self).pos,
            final(self).dir == old(self).dir,
            final(self).score == old(self).score,
            final(self).is_dead == old(self).is_dead,
            final(self).input_q == old(self).input_q,
            final(self).input_q_len == old(self).input_q_len,
            final(self).pad == old(self).pad,
    {
        let ghost before = self.tail@;
        let mut j: usize = TAIL_LEN - 1;
        while j > 0
            invariant
                0 <= j < TAIL_LEN,
                before == old(self).tail@,
                self.tail@.len() == TAIL_LEN,
                forall|k: int| 0 <= k <= j ==> self.tail@[k] == before[k],
                forall|k: int| j < k < TAIL_LEN ==> self.tail@[k] == before[k - 1],
                self.pos == old(self).pos,
                self.dir == old(self).dir,
                self.score == old(self).score,
                self.is_dead == old(self).is_dead,
                self.input_q == old(self).input_q,
                self.input_q_len == old(self).input_q_len,
                self.pad == old(self).pad,
            decreases j,
        {
            self.tail[j] = self.tail[j - 1];
            j = j - 1;
        }
        self.tail[0] = turn;
        assert(self.tail@ =~= seq![turn] + before.take(TAIL_LEN - 1));
    }

    /// Whether some segment of the tail lies on the head.
    fn hits_tail(&self) -> (r: bool)
        requires
            self.wf(),
        ensures
            r == self.bites_itself(),
    {
        let segments = self.segment_positions();
        let mut k: usize = 1;
        while k < segments.len()
            invariant
                self.wf(),
                1 <= k <= segments.len(),
                segments.len() == self.score + 1,
                forall|j: int|
                    0 <= j < segments.len() ==> cell(#[trigger] segments[j]) == self.segment(
                        j as nat,
                    ),
                forall|j: nat| 1 <= j < k ==> #[trigger] self.segment(j) != self.head(),
            decreases segments.len() - k,
        {
            if segments[k][0] == self.pos[0] && segments[k][1] == self.pos[1] {
                assert(cell(segments[k as int]) == self.segment(k as nat));
                return true;
            }
            assert(cell(segments[k as int]) == self.segment(k as nat));
            k = k + 1;
        }
        false
    }

    /// Advances the game by one frame at tick count `tick`.
    ///
    /// A dead snake only shrinks: on every tenth tick it loses a point, and
    /// with none left the game starts over. A live one moves one cell on
    /// every sixteenth tick, eats the fruit when its head lies on it (the
    /// score stops at `SCORE_MAX`, the most its digit can hold), and dies
    /// when its head lies on its tail.
    pub fn update(&mut self, tick: u64)
        requires
            old(self).wf(),
        ensures
            final(self).wf(),
            old(self).is_dead && tick % 10 != 0 ==> *final(self) == *old(self),
            old(self).is_dead && tick % 10 == 0 && old(self).score == 0
                ==> final(self).is_initial(),
            old(self).is_dead && tick % 10 == 0 && old(self).score > 0 ==> *final(self) == (Data {
                score: (old(self).score - 1) as u8,
                ..*old(self)
            }),
            !old(self).is_dead && tick % 16 == 0 ==> final(self).moved_from(*old(self)),
            !old(self).is_dead && tick % 16 != 0 ==> {
                &&& final(self).pos == old(self).pos
                &&& final(self).dir == old(self).dir
                &&& final(self).tail == old(self).tail
                &&& final(self).input_q == old(self).input_q
                &&& final(self).input_q_len == old(self).input_q_len
            },
            !old(self).is_dead ==> final(self).score == old(self).score + (if final(self).head()
                == fruit_at(old(self).score) && old(self).score < SCORE_MAX {
                1int
            } else {
                0int
            }),
            !old(self).is_dead ==> final(self).is_dead == final(self).bites_itself(),
            !old(self).is_dead ==> final(self).pad == old(self).pad,
    {
        if self.is_dead {
            if tick % 10 != 0 {
                return;
            }
            if self.score == 0 {
                *self = Data::default();
            } else {
                self.score = self.score - 1;
            }
            return;
        }
        if tick % 16 == 0 {
            let next_turn = self.dequeue_turn();
            self.dir = self.dir.turned(next_turn);
            self.pos = shift(self.pos, self.dir);
            self.record_turn(next_turn.mirror());
        }
        let fruit = self.fruit_pos();
        if self.pos[0] == fruit[0] && self.pos[1] == fruit[1] && self.score < SCORE_MAX {
            self.score = self.score + 1;
        }
        if self.hits_tail() {
            let ghost alive = *self;
            self.is_dead = true;
            proof {
                let k = choose|k: nat| 1 <= k <= alive.score && #[trigger] alive.segment(k)
                    == alive.head();
                self.lemma_walk_reads_body(alive, k);
                assert(self.segment(k) == self.head());
            }
        }
    }
}

} // verus!
