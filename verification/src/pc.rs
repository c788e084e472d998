//! Program counter: a 2D point and a direction on the program torus.

use vstd::prelude::*;
use crate::consts::{WIDTH, HEIGHT};
use crate::state::{wrap, dir_ok, dir_of};

verus! {

/// Small 2D point for addressing the program space.
#[derive(Clone, Copy, PartialEq, Eq, Structural, Debug)]
pub struct Point {
    pub x: i16,
    pub y: i16,
}

impl Point {
    /// Plain vector addition, with no bounds enforcement: keeping the sum
    /// inside the grid is the caller's business.
    pub fn add(self, other: Point) -> (r: Point)
        requires
            i16::MIN <= self.x + other.x <= i16::MAX,
            i16::MIN <= self.y + other.y <= i16::MAX,
        ensures
            r.x == self.x + other.x,
            r.y == self.y + other.y,
    {
        Point { x: self.x + other.x, y: self.y + other.y }
    }
}

/// What a program counter holds, as plain integers: position and
/// direction.
pub ghost struct PcState {
    pub x: int,
    pub y: int,
    pub dx: int,
    pub dy: int,
}

/// Program counter, with position and direction.
#[derive(Debug)]
pub struct Pc {
    pub pos: Point,
    pub dir: Point,
}

impl View for Pc {
    type V = PcState;

    open spec fn view(&self) -> PcState {
        PcState {
            x: self.pos.x as int,
            y: self.pos.y as int,
            dx: self.dir.x as int,
            dy: self.dir.y as int,
        }
    }
}

/// Relies on rand::random_range over the range `0..4`, which returns a
/// value in the given range, to draw one of four direction indices.
#[verifier::external_body]
fn random_quarter() -> (r: u8)
    ensures
        r < 4,
{
    rand::random_range(0u8..4)
}

impl Pc {
    /// The counter is inside the grid and headed in a cardinal direction.
    pub open spec fn wf(&self) -> bool {
        &&& 0 <= self@.x < WIDTH
        &&& 0 <= self@.y < HEIGHT
        &&& dir_ok(self@.dx, self@.dy)
    }

    /// Creates a program counter at the top left corner of program space,
    /// heading right.
    pub fn new() -> (r: Pc)
        ensures
            r@ == (PcState { x: 0, y: 0, dx: 1, dy: 0 }),
            r.wf(),
    {
        Pc { pos: Point { x: 0, y: 0 }, dir: Point { x: 1, y: 0 } }
    }

    /// Steps the program counter forward in the current direction,
    /// wrapping around the program torus space: the new position stays
    /// inside the grid for every in-bounds position and cardinal
    /// direction.
    pub fn step(&mut self)
        requires
            old(self).wf(),
        ensures
            final(self).wf(),
            final(self)@.x == wrap(old(self)@.x + old(self)@.dx, WIDTH as int),
            final(self)@.y == wrap(old(self)@.y + old(self)@.dy, HEIGHT as int),
            final(self)@.dx == old(self)@.dx,
            final(self)@.dy == old(self)@.dy,
    {
        self.pos = self.pos.add(self.dir);
        self.pos.x = (self.pos.x + WIDTH as i16) % WIDTH as i16;
        self.pos.y = (self.pos.y + HEIGHT as i16) % HEIGHT as i16;
    }

    /// Sets the direction to right.
    pub fn right(&mut self)
        ensures
            final(self)@ == (PcState { dx: 1, dy: 0, ..old(self)@ }),
    {
        self.dir = Point { x: 1, y: 0 }
    }

    /// Sets the direction to left.
    pub fn left(&mut self)
        ensures
            final(self)@ == (PcState { dx: -1, dy: 0, ..old(self)@ }),
    {
        self.dir = Point { x: -1, y: 0 }
    }

    /// Sets the direction to down.
    pub fn down(&mut self)
        ensures
            final(self)@ == (PcState { dx: 0, dy: 1, ..old(self)@ }),
    {
        self.dir = Point { x: 0, y: 1 }
    }

    /// Sets the direction to up.
    pub fn up(&mut self)
        ensures
            final(self)@ == (PcState { dx: 0, dy: -1, ..old(self)@ }),
    {
        self.dir = Point { x: 0, y: -1 }
    }

    /// Sets the direction randomly: afterwards the direction is one of the
    /// four cardinal unit vectors and the position is untouched.
    pub fn rand(&mut self)
        ensures
            exists|k: int|
                #![trigger dir_of(k)]
                0 <= k < 4 && final(self)@ == (PcState {
                    dx: dir_of(k).0,
                    dy: dir_of(k).1,
                    ..old(self)@
                }),
            final(self)@.x == old(self)@.x,
            final(self)@.y == old(self)@.y,
            dir_ok(final(self)@.dx, final(self)@.dy),
    {
        let k = random_quarter();
        if k == 0 {
            self.right();
        } else if k == 1 {
            self.left();
        } else if k == 2 {
            self.down();
        } else {
            self.up();
        }
        proof {
            let kk: int = if k == 0 { 0 } else if k == 1 { 1 } else if k == 2 { 2 } else { 3 };
            assert(0 <= kk < 4 && self@ == (PcState {
                dx: dir_of(kk).0,
                dy: dir_of(kk).1,
                ..old(self)@
            }));
        }
    }
}

} // verus!
