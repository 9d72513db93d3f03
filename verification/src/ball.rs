use vstd::prelude::*;

verus! {

/// The world cell that a ball sits on.
#[derive(Copy, Clone, Debug, PartialEq, Eq, Hash)]
pub struct BallPosition {
    pub position: [i32; 2],
}

impl View for BallPosition {
    type V = (i32, i32);

    open spec fn view(&self) -> (i32, i32) {
        (self.position[0], self.position[1])
    }
}

impl Default for BallPosition {
    fn default() -> (p: BallPosition)
        ensures
            p@ == (0i32, 0i32),
    {
        BallPosition { position: [0, 0] }
    }
}

/// One of the four ways a ball can travel.
#[derive(Debug, Clone, Copy, PartialEq, Eq, Structural)]
pub enum Direction {
    Up,
    Down,
    Left,
    Right,
}

/// The number that stands for a direction when balls are drawn.
pub open spec fn direction_code(d: Direction) -> u32 {
    match d {
        Direction::Right => 0,
        Direction::Up => 1,
        Direction::Down => 2,
        Direction::Left => 3,
    }
}

impl From<Direction> for u32 {
    fn from(value: Direction) -> (code: u32)
        ensures
            code == direction_code(value),
    {
        match value {
            Direction::Right => 0,
            Direction::Up => 1,
            Direction::Down => 2,
            Direction::Left => 3,
        }
    }
}

impl vstd::std_specs::convert::FromSpecImpl<Direction> for u32 {
    open spec fn obeys_from_spec() -> bool {
        true
    }

    open spec fn from_spec(value: Direction) -> u32 {
        direction_code(value)
    }
}

/// One ball as it is drawn: the lowest bit says whether it is on, the two
/// bits above hold the direction's number.
pub open spec fn ball_word(on: bool, d: Direction) -> u32 {
    ((if on { 1int } else { 0int }) + 2 * direction_code(d)) as u32
}

/// The balls of a frame, one word each.
pub struct BallsOn {
    data: Vec<u32>,
}

impl View for BallsOn {
    type V = Seq<u32>;

    closed spec fn view(&self) -> Seq<u32> {
        self.data@
    }
}

impl BallsOn {
    /// The words, in order.
    pub fn words(&self) -> (w: &Vec<u32>)
        ensures
            w@ == self@,
    {
        &self.data
    }
}

/// The words of a list of balls.
pub open spec fn packed_words(value: Seq<(bool, Direction)>) -> Seq<u32> {
    Seq::new(value.len(), |i: int| ball_word(value[i].0, value[i].1))
}

impl From<Vec<(bool, Direction)>> for BallsOn {
    fn from(value: Vec<(bool, Direction)>) -> (packed: BallsOn)
        ensures
            packed@ == packed_words(value@),
    {
        let mut data: Vec<u32> = Vec::new();
        let mut i: usize = 0;
        while i < value.len()
            invariant
                i <= value.len(),
                data@ == packed_words(value@.take(i as int)),
            decreases value.len() - i,
        {
            let on: u32 = if value[i].0 { 1 } else { 0 };
            let d: u32 = u32::from(value[i].1);
            assert(on | d << 1 == on + 2 * d) by (bit_vector)
                requires
                    on <= 1,
                    d <= 3,
            ;
            data.push(on | d << 1);
            assert(data@ =~= packed_words(value@.take(i + 1)));
            i += 1;
        }
        assert(value@.take(value@.len() as int) =~= value@);
        BallsOn { data }
    }
}

/// The packed words cannot be built in a specification, so the conversion is
/// stated by the `ensures` of `from`, through the view, and not here.
impl vstd::std_specs::convert::FromSpecImpl<Vec<(bool, Direction)>> for BallsOn {
    open spec fn obeys_from_spec() -> bool {
        false
    }

    open spec fn from_spec(value: Vec<(bool, Direction)>) -> BallsOn {
        arbitrary()
    }
}

} // verus!
