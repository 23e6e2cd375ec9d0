use vstd::prelude::*;
use std::collections::VecDeque;

verus! {

broadcast use vstd::std_specs::vecdeque::group_vec_dequeue_axioms;

/// A grid position `(x, y)`.
pub type Position = (usize, usize);

/// One of the eight compass headings, arranged as a ring in this order.
#[derive(Clone, Copy, Debug, PartialEq, Eq, Structural)]
pub enum Direction {
    N,
    NE,
    E,
    SE,
    S,
    SW,
    W,
    NW,
}

/// Ring index of a heading, `0..8`.
pub open spec fn ring_index(d: Direction) -> int {
    match d {
        Direction::N => 0,
        Direction::NE => 1,
        Direction::E => 2,
        Direction::SE => 3,
        Direction::S => 4,
        Direction::SW => 5,
        Direction::W => 6,
        Direction::NW => 7,
    }
}

/// The heading at ring index `i` (taken modulo 8).
pub open spec fn at_ring_index(i: int) -> Direction {
    let k = i % 8;
    if k == 0 {
        Direction::N
    } else if k == 1 {
        Direction::NE
    } else if k == 2 {
        Direction::E
    } else if k == 3 {
        Direction::SE
    } else if k == 4 {
        Direction::S
    } else if k == 5 {
        Direction::SW
    } else if k == 6 {
        Direction::W
    } else {
        Direction::NW
    }
}

/// The unit step of a heading.
pub open spec fn delta_of(d: Direction) -> (int, int) {
    match d {
        Direction::N => (0, 1),
        Direction::NE => (1, 1),
        Direction::E => (1, 0),
        Direction::SE => (1, -1),
        Direction::S => (0, -1),
        Direction::SW => (-1, -1),
        Direction::W => (-1, 0),
        Direction::NW => (-1, 1),
    }
}

pub open spec fn left_of(d: Direction) -> Direction {
    at_ring_index(ring_index(d) + 7)
}

pub open spec fn right_of(d: Direction) -> Direction {
    at_ring_index(ring_index(d) + 1)
}

impl Direction {
    /// The heading with ring index `v`, or `None` when `v >= 8`.
    pub fn from_index(v: usize) -> (r: Option<Direction>)
        ensures
            v < 8 ==> r == Some(at_ring_index(v as int)),
            v >= 8 ==> r.is_none(),
    {
        match v {
            0 => Some(Direction::N),
            1 => Some(Direction::NE),
            2 => Some(Direction::E),
            3 => Some(Direction::SE),
            4 => Some(Direction::S),
            5 => Some(Direction::SW),
            6 => Some(Direction::W),
            7 => Some(Direction::NW),
            _ => None,
        }
    }

    /// The ring index of this heading.
    pub fn index(&self) -> (r: usize)
        ensures
            r as int == ring_index(*self),
            r < 8,
    {
        match self {
            Direction::N => 0,
            Direction::NE => 1,
            Direction::E => 2,
            Direction::SE => 3,
            Direction::S => 4,
            Direction::SW => 5,
            Direction::W => 6,
            Direction::NW => 7,
        }
    }

    /// The unit step `(dx, dy)` of this heading; never `(0, 0)`.
    pub fn delta(&self) -> (r: (isize, isize))
        ensures
            (r.0 as int, r.1 as int) == delta_of(*self),
    {
        match self {
            Direction::N => (0, 1),
            Direction::NE => (1, 1),
            Direction::E => (1, 0),
            Direction::SE => (1, -1),
            Direction::S => (0, -1),
            Direction::SW => (-1, -1),
            Direction::W => (-1, 0),
            Direction::NW => (-1, 1),
        }
    }

    /// The heading one ring position to the left (index - 1 mod 8).
    pub fn left(&self) -> (r: Direction)
        ensures
            r == left_of(*self),
            ring_index(r) == (ring_index(*self) + 7) % 8,
    {
        let i = self.index();
        let r = Direction::from_index((i + 7) % 8);
        r.unwrap()
    }

    /// The heading one ring position to the right (index + 1 mod 8).
    pub fn right(&self) -> (r: Direction)
        ensures
            r == right_of(*self),
            ring_index(r) == (ring_index(*self) + 1) % 8,
    {
        let i = self.index();
        let r = Direction::from_index((i + 1) % 8);
        r.unwrap()
    }
}

/// The sequence after remembering `v` in a memory of capacity `size`:
/// nothing is kept at capacity 0, and the oldest entry leaves when full.
pub open spec fn remembered(s: Seq<Position>, size: nat, v: Position) -> Seq<Position> {
    if size == 0 {
        s
    } else if s.len() >= size {
        s.subrange(s.len() - size + 1, s.len() as int).push(v)
    } else {
        s.push(v)
    }
}

/// A bounded memory of recent positions, oldest first.
pub struct History {
    history: VecDeque<Position>,
    size: usize,
}

impl History {
    /// The remembered positions, oldest first.
    pub closed spec fn view(&self) -> Seq<Position> {
        self.history@
    }

    /// The capacity.
    pub closed spec fn capacity(&self) -> nat {
        self.size as nat
    }

    pub open spec fn wf(&self) -> bool {
        self@.len() <= self.capacity()
    }

    /// An empty memory that keeps at most `size` positions.
    pub fn with_size(size: usize) -> (r: History)
        ensures
            r.wf(),
            r@ == Seq::<Position>::empty(),
            r.capacity() == size,
    {
        History { history: VecDeque::with_capacity(size), size }
    }

    /// The capacity this memory was made with.
    pub fn size(&self) -> (r: usize)
        ensures
            r == self.capacity(),
    {
        self.size
    }

    /// Remembers `value`, evicting the oldest position when full; does
    /// nothing at capacity 0.
    pub fn push(&mut self, value: Position)
        requires
            old(self).wf(),
        ensures
            final(self).wf(),
            final(self).capacity() == old(self).capacity(),
            final(self)@ == remembered(old(self)@, old(self).capacity(), value),
    {
        if self.size == 0 {
            return;
        }
        if self.history.len() == self.size {
            self.history.pop_front();
        }
        self.history.push_back(value);
    }

    /// Whether `value` is remembered.
    pub fn contains(&self, value: &Position) -> (r: bool)
        ensures
            r == self@.contains(*value),
    {
        let mut i: usize = 0;
        while i < self.history.len()
            invariant
                i <= self.history@.len(),
                forall|j: int| 0 <= j < i ==> self.history@[j] != *value,
            decreases self.history@.len() - i,
        {
            let h = self.history[i];
            if h.0 == value.0 && h.1 == value.1 {
                assert(self@[i as int] == *value);
                return true;
            }
            i = i + 1;
        }
        false
    }
}

impl Default for History {
    fn default() -> (r: History)
        ensures
            r.wf(),
            r@ == Seq::<Position>::empty(),
            r.capacity() == 6,
    {
        History::with_size(6)
    }
}

/// A mobile agent: position, heading and memory of recent positions.
pub struct Spore {
    pub position: Position,
    pub direction: Direction,
    pub history: History,
}

impl Spore {
    pub open spec fn wf(&self) -> bool {
        self.history.wf()
    }

    /// An agent at `(0, 0)` heading south, remembering up to `size` positions.
    pub fn with_memory(size: usize) -> (r: Spore)
        ensures
            r.wf(),
            r.position == (0usize, 0usize),
            r.direction == Direction::S,
            r.history@ == Seq::<Position>::empty(),
            r.history.capacity() == size,
    {
        Spore { position: (0, 0), direction: Direction::S, history: History::with_size(size) }
    }

    /// Remembers the current position, then moves to `position`.
    pub fn move_to(&mut self, position: Position)
        requires
            old(self).wf(),
        ensures
            final(self).wf(),
            final(self).position == position,
            final(self).direction == old(self).direction,
            final(self).history.capacity() == old(self).history.capacity(),
            final(self).history@ == remembered(
                old(self).history@,
                old(self).history.capacity(),
                old(self).position,
            ),
    {
        let p = self.position;
        self.history.push(p);
        self.position = position;
    }

    /// Sets the heading.
    pub fn turn(&mut self, direction: Direction)
        ensures
            final(self).direction == direction,
            final(self).position == old(self).position,
            final(self).history == old(self).history,
    {
        self.direction = direction;
    }
}

impl Default for Spore {
    fn default() -> (r: Spore)
        ensures
            r.wf(),
            r.position == (0usize, 0usize),
            r.direction == Direction::S,
            r.history@ == Seq::<Position>::empty(),
            r.history.capacity() == 6,
    {
        Spore { position: (0, 0), direction: Direction::S, history: History::default() }
    }
}

} // verus!
