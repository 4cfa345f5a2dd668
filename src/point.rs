use vstd::prelude::*;

verus! {

/// A pair of coordinates on the board, signed while neighbours are being
/// computed (they may fall off the board) and unsigned once in bounds.
#[derive(Clone, Copy, Debug)]
pub struct Point<T> {
    pub x: T,
    pub y: T,
}

/// Horizontal offset of the neighbour in direction `d` (0..8), in the fixed order
/// (-1,-1), (0,-1), (1,-1), (-1,0), (1,0), (-1,1), (0,1), (1,1).
pub open spec fn dir_dx(d: int) -> int {
    if d == 0 || d == 3 || d == 5 {
        -1
    } else if d == 1 || d == 6 {
        0
    } else if d == 2 || d == 4 || d == 7 {
        1
    } else {
        0
    }
}

/// Vertical offset of the neighbour in direction `d` (0..8).
pub open spec fn dir_dy(d: int) -> int {
    if 0 <= d < 3 {
        -1
    } else if d == 3 || d == 4 {
        0
    } else if 5 <= d < 8 {
        1
    } else {
        0
    }
}

impl Point<isize> {
    /// The same point with both coordinates cast to `usize`.
    pub fn itou(&self) -> (r: Point<usize>)
        ensures
            r.x == self.x as usize,
            r.y == self.y as usize,
            self.x >= 0 ==> r.x == self.x,
            self.y >= 0 ==> r.y == self.y,
    {
        Point::<usize> { x: self.x as usize, y: self.y as usize }
    }

    /// The directions of the eight neighbours, numbered 0 to 7.
    pub fn pos8_iter() -> (r: std::ops::Range<i32>)
        ensures
            r.start == 0,
            r.end == 8,
    {
        0..8
    }

    /// The neighbour of this point in direction `pos8` (see `dir_dx`, `dir_dy`);
    /// any other direction gives the point itself.
    pub fn get_pos_8(&self, pos8: i32) -> (r: Point<isize>)
        requires
            0 <= pos8 < 8 ==> isize::MIN < self.x < isize::MAX && isize::MIN < self.y < isize::MAX,
        ensures
            r.x == self.x + dir_dx(pos8 as int),
            r.y == self.y + dir_dy(pos8 as int),
    {
        let (dx, dy): (isize, isize) = match pos8 {
            0 => (-1, -1),
            1 => (0, -1),
            2 => (1, -1),
            3 => (-1, 0),
            4 => (1, 0),
            5 => (-1, 1),
            6 => (0, 1),
            7 => (1, 1),
            _ => (0, 0),
        };
        Point::<isize> { x: self.x + dx, y: self.y + dy }
    }
}

impl Point<usize> {
    /// The same point with both coordinates cast to `isize`.
    pub fn utoi(&self) -> (r: Point<isize>)
        ensures
            r.x == self.x as isize,
            r.y == self.y as isize,
            self.x <= isize::MAX ==> r.x == self.x,
            self.y <= isize::MAX ==> r.y == self.y,
    {
        Point::<isize> { x: self.x as isize, y: self.y as isize }
    }

    /// Whether both coordinates agree.
    pub fn is_equal(&self, p: &Point<usize>) -> (r: bool)
        ensures
            r == (self.x == p.x && self.y == p.y),
    {
        p.x == self.x && p.y == self.y
    }
}

} // verus!
