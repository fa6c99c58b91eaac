//! Points of the integer plane and the four unit steps between them.

use vstd::prelude::*;

verus! {

/// A position of the integer plane. Points are ordered by `x`, then by `y`.
#[derive(Debug, PartialEq, Eq, Structural, Hash, Clone, Copy, PartialOrd, Ord)]
pub struct Point {
    pub x: i32,
    pub y: i32,
}

/// One of the four unit steps. `Up` raises `y`, `Right` raises `x`.
#[derive(Debug, PartialEq, Eq, Structural, Clone, Copy)]
pub enum Direction {
    Up,
    Right,
    Down,
    Left,
}

/// The four directions, in the sequence in which the glyph table takes the
/// lines that meet at a point.
pub const DIRECTIONS: [Direction; 4] = [Direction::Up, Direction::Right, Direction::Down, Direction::Left];

impl Point {
    /// Whether the neighbor of `self` in direction `d` is representable.
    pub open spec fn can_step(self, d: Direction) -> bool {
        match d {
            Direction::Up => self.y < i32::MAX,
            Direction::Right => self.x < i32::MAX,
            Direction::Down => self.y > i32::MIN,
            Direction::Left => self.x > i32::MIN,
        }
    }

    /// The neighbor of `self` in direction `d`.
    pub open spec fn step(self, d: Direction) -> Point
        recommends
            self.can_step(d),
    {
        match d {
            Direction::Up => Point { x: self.x, y: (self.y + 1) as i32 },
            Direction::Right => Point { x: (self.x + 1) as i32, y: self.y },
            Direction::Down => Point { x: self.x, y: (self.y - 1) as i32 },
            Direction::Left => Point { x: (self.x - 1) as i32, y: self.y },
        }
    }

    /// The order of points: by `x`, then by `y`.
    pub open spec fn precedes(self, other: Point) -> bool {
        self.x < other.x || (self.x == other.x && self.y <= other.y)
    }

    fn new(x: i32, y: i32) -> (p: Point)
        ensures
            p.x == x,
            p.y == y,
    {
        Point { x, y }
    }
}

/// The lattice point with the given coordinates.
pub open spec fn lattice(x: int, y: int) -> Point {
    Point { x: x as i32, y: y as i32 }
}

/// Whether `a` comes before `b` in the order of points, or equals it.
pub fn precedes(a: &Point, b: &Point) -> (r: bool)
    ensures
        r == a.precedes(*b),
{
    a.x < b.x || (a.x == b.x && a.y <= b.y)
}

/// The point with the given coordinates.
pub fn point(x: i32, y: i32) -> (p: Point)
    ensures
        p.x == x,
        p.y == y,
{
    Point::new(x, y)
}

/// The two endpoints of an edge in their order: the smaller point first.
pub open spec fn ordered_pair(pa: Point, pb: Point) -> (Point, Point) {
    if pa.precedes(pb) {
        (pa, pb)
    } else {
        (pb, pa)
    }
}

/// Puts two points in order, so that an edge is named the same way from
/// either end.
pub fn order_points<'a>(pa: &'a Point, pb: &'a Point) -> (r: (&'a Point, &'a Point))
    ensures
        (*r.0, *r.1) == ordered_pair(*pa, *pb),
{
    if pa.x < pb.x || (pa.x == pb.x && pa.y <= pb.y) {
        (pa, pb)
    } else {
        (pb, pa)
    }
}

/// An edge has one name, whichever endpoint is given first.
pub proof fn lemma_ordered_pair_symmetric(pa: Point, pb: Point)
    ensures
        ordered_pair(pa, pb) == ordered_pair(pb, pa),
{
}

/// The neighbor of `p` in direction `d`.
pub fn offset(p: &Point, d: &Direction) -> (r: Point)
    requires
        p.can_step(*d),
    ensures
        r == p.step(*d),
{
    match d {
        Direction::Up => Point::new(p.x, p.y + 1),
        Direction::Right => Point::new(p.x + 1, p.y),
        Direction::Down => Point::new(p.x, p.y - 1),
        Direction::Left => Point::new(p.x - 1, p.y),
    }
}

/// Maps a cell position into the finer lattice in which the borders between
/// horizontally adjacent cells have integer positions.
pub fn double_x(p: &Point) -> (r: Point)
    requires
        i32::MIN <= 2 * p.x <= i32::MAX,
    ensures
        r.x == 2 * p.x,
        r.y == p.y,
{
    Point::new(p.x * 2, p.y)
}

/// The point `p` translated by `offset`.
pub fn move_point(p: &Point, offset: &Point) -> (r: Point)
    requires
        i32::MIN <= p.x + offset.x <= i32::MAX,
        i32::MIN <= p.y + offset.y <= i32::MAX,
    ensures
        r.x == p.x + offset.x,
        r.y == p.y + offset.y,
{
    point(p.x + offset.x, p.y + offset.y)
}

} // verus!
