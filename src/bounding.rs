//! Running axis-aligned extrema of a walk, and the area they enclose.

use crate::moves::{abs, move_vector, net, GaussInt};
use vstd::prelude::*;

verus! {

/// Extrema seen so far: `north`/`south` bound the imaginary part, `east`/`west`
/// the real part.
#[derive(Debug, Clone, Copy, PartialEq, Eq, Structural)]
pub struct ComplexBox {
    pub north: i32,
    pub west: i32,
    pub south: i32,
    pub east: i32,
}

pub open spec fn max(x: int, y: int) -> int {
    if x >= y {
        x
    } else {
        y
    }
}

pub open spec fn min(x: int, y: int) -> int {
    if x <= y {
        x
    } else {
        y
    }
}

/// The box of a walk from the origin through the partial sums of `s`, as
/// `(north, west, south, east)`; the origin itself is always inside.
pub open spec fn walk_box(s: Seq<u8>, a: int, b: int) -> (int, int, int, int)
    decreases s.len(),
{
    if s.len() == 0 {
        (0, 0, 0, 0)
    } else {
        let p = walk_box(s.drop_last(), a, b);
        let q = net(s, a, b);
        (max(p.0, q.1), min(p.1, q.0), min(p.2, q.1), max(p.3, q.0))
    }
}

/// Area of the bounding rectangle of the walk of `s`.
pub open spec fn walk_area(s: Seq<u8>, a: int, b: int) -> int {
    let bx = walk_box(s, a, b);
    (bx.3 - bx.1) * (bx.0 - bx.2)
}

/// Area of the walk of a single move: the product of its vector's absolute coordinates.
pub proof fn lemma_single_move_area(mv: u8, a: int, b: int)
    ensures
        walk_area(seq![mv], a, b) == abs(move_vector(mv as int, a, b).0) * abs(
            move_vector(mv as int, a, b).1,
        ),
{
    let s = seq![mv];
    assert(s.drop_last() =~= Seq::<u8>::empty());
    assert(s.last() == mv);
    assert(net(s.drop_last(), a, b) == (0int, 0int));
    assert(walk_box(s.drop_last(), a, b) == (0int, 0int, 0int, 0int));
    let v = move_vector(mv as int, a, b);
    assert(net(s, a, b) == v);
    let w = if v.0 >= 0 { v.0 } else { -v.0 };
    let h = if v.1 >= 0 { v.1 } else { -v.1 };
    assert(walk_area(s, a, b) == w * h);
}

impl ComplexBox {
    pub open spec fn view(self) -> (int, int, int, int) {
        (self.north as int, self.west as int, self.south as int, self.east as int)
    }

    /// Ordered extrema: `south <= north` and `west <= east`.
    pub open spec fn wf(self) -> bool {
        self.south <= self.north && self.west <= self.east
    }

    pub fn new(north: i32, west: i32, south: i32, east: i32) -> (r: ComplexBox)
        ensures
            r.north == north,
            r.west == west,
            r.south == south,
            r.east == east,
    {
        ComplexBox { north, west, south, east }
    }

    /// The box of a walk that has not moved yet: the origin alone.
    pub fn at_origin() -> (r: ComplexBox)
        ensures
            r@ == (0int, 0int, 0int, 0int),
            r.wf(),
    {
        ComplexBox::new(0, 0, 0, 0)
    }

    /// `(east - west) * (north - south)`.
    pub fn get_area(&self) -> (r: u64)
        requires
            self.wf(),
        ensures
            r == (self.east - self.west) * (self.north - self.south),
    {
        let width: u64 = (self.east as i64 - self.west as i64) as u64;
        let height: u64 = (self.north as i64 - self.south as i64) as u64;
        assert(width * height <= 0xffff_fffe_0000_0001) by (nonlinear_arith)
            requires width <= 0xffff_ffff, height <= 0xffff_ffff;
        width * height
    }

    /// Widens the box so that it holds `c_num`.
    pub fn update_from_complex(&mut self, c_num: GaussInt)
        ensures
            final(self)@ == (
                max(old(self).north as int, c_num.im as int),
                min(old(self).west as int, c_num.re as int),
                min(old(self).south as int, c_num.im as int),
                max(old(self).east as int, c_num.re as int),
            ),
            old(self).wf() ==> final(self).wf(),
    {
        if c_num.im > self.north {
            self.north = c_num.im;
        }
        if c_num.re < self.west {
            self.west = c_num.re;
        }
        if c_num.im < self.south {
            self.south = c_num.im;
        }
        if c_num.re > self.east {
            self.east = c_num.re;
        }
    }
}

} // verus!
