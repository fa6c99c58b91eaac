//! A sparse set of weighted unit edges between lattice points, and its
//! rendering as box-drawing text.

use vstd::prelude::*;
use crate::geometry::{offset, order_points, ordered_pair, point, Direction, Point, DIRECTIONS};
use crate::glyph::{boxc, glyph_or_error, ERROR_CHAR};

verus! {

/// `String::push` of std appends one character to the end of the string;
/// the contract says that of the string's characters.
pub assume_specification[ String::push ](s: &mut String, ch: char)
    ensures
        final(s)@ == old(s)@.push(ch),
;

/// The smallest rectangle of lattice points that a rendering covers.
#[derive(Debug, PartialEq, Eq, Structural, Clone, Copy)]
pub struct Bounds {
    pub min_x: i32,
    pub max_x: i32,
    pub min_y: i32,
    pub max_y: i32,
}

impl Bounds {
    /// Whether `p` lies in the rectangle.
    pub open spec fn holds(self, p: Point) -> bool {
        self.min_x <= p.x <= self.max_x && self.min_y <= p.y <= self.max_y
    }

    /// The number of lattice points in a row.
    pub open spec fn width(self) -> int {
        self.max_x - self.min_x + 1
    }

    /// The number of rows.
    pub open spec fn height(self) -> int {
        self.max_y - self.min_y + 1
    }
}

/// A point that has a neighbor in each of the four directions.
pub open spec fn interior(p: Point) -> bool {
    i32::MIN < p.x < i32::MAX && i32::MIN < p.y < i32::MAX
}

/// The weight recorded for the edge between `pa` and `pb`; 0 where none is.
pub open spec fn weight_between(m: Map<(Point, Point), u8>, pa: Point, pb: Point) -> u8 {
    let k = ordered_pair(pa, pb);
    if m.contains_key(k) {
        m[k]
    } else {
        0
    }
}

/// `b` is the bounding box of the origin and of every endpoint of an edge
/// of `m`: it holds them all, and each of its sides touches one of them.
pub open spec fn is_bounding_box(m: Map<(Point, Point), u8>, b: Bounds) -> bool {
    &&& b.holds(Point { x: 0, y: 0 })
    &&& forall|k: (Point, Point)| #[trigger] m.contains_key(k) ==> b.holds(k.0) && b.holds(k.1)
    &&& (b.min_x == 0 || exists|k: (Point, Point)| #[trigger]
        m.contains_key(k) && (k.0.x == b.min_x || k.1.x == b.min_x))
    &&& (b.max_x == 0 || exists|k: (Point, Point)| #[trigger]
        m.contains_key(k) && (k.0.x == b.max_x || k.1.x == b.max_x))
    &&& (b.min_y == 0 || exists|k: (Point, Point)| #[trigger]
        m.contains_key(k) && (k.0.y == b.min_y || k.1.y == b.min_y))
    &&& (b.max_y == 0 || exists|k: (Point, Point)| #[trigger]
        m.contains_key(k) && (k.0.y == b.max_y || k.1.y == b.max_y))
}

/// The bounding box of the origin and the edges of `m`.
pub open spec fn bounding_box(m: Map<(Point, Point), u8>) -> Bounds {
    choose|b: Bounds| is_bounding_box(m, b)
}

/// A map of edges has at most one bounding box.
pub proof fn lemma_bounding_box_unique(m: Map<(Point, Point), u8>, b1: Bounds, b2: Bounds)
    requires
        is_bounding_box(m, b1),
        is_bounding_box(m, b2),
    ensures
        b1 == b2,
{
}

/// The glyph drawn at `p`: the one for the weights of the four edges that
/// leave `p` upwards, to the right, downwards and to the left.
pub open spec fn glyph_at(m: Map<(Point, Point), u8>, p: Point) -> char
    recommends
        interior(p),
{
    glyph_or_error(
        weight_between(m, p, p.step(Direction::Up)),
        weight_between(m, p, p.step(Direction::Right)),
        weight_between(m, p, p.step(Direction::Down)),
        weight_between(m, p, p.step(Direction::Left)),
    )
}

/// An edge has one weight, from whichever end it is asked for.
pub proof fn lemma_weight_symmetric(m: Map<(Point, Point), u8>, pa: Point, pb: Point)
    ensures
        weight_between(m, pa, pb) == weight_between(m, pb, pa),
{
}

/// After a weight is recorded for an edge, that weight is what the edge
/// has, asked for from either end; every other edge has what it had.
pub proof fn lemma_recorded_weight(m: Map<(Point, Point), u8>, pa: Point, pb: Point, n: u8, qa: Point, qb: Point)
    ensures
        weight_between(m.insert(ordered_pair(pa, pb), n), pa, pb) == n,
        weight_between(m.insert(ordered_pair(pa, pb), n), pb, pa) == n,
        ordered_pair(qa, qb) != ordered_pair(pa, pb) ==> weight_between(m.insert(ordered_pair(pa, pb), n), qa, qb)
            == weight_between(m, qa, qb),
{
}

/// The first `n` glyphs of the row at height `y`, from `min_x` rightwards.
pub open spec fn row_glyphs(m: Map<(Point, Point), u8>, y: int, min_x: int, n: int) -> Seq<char> {
    Seq::new(n as nat, |i: int| glyph_at(m, Point { x: (min_x + i) as i32, y: y as i32 }))
}

/// The text of the topmost `rows` rows of the box `b`: each row from left
/// to right and closed by a line break, the row with the largest `y` first.
pub open spec fn rows_text(m: Map<(Point, Point), u8>, b: Bounds, rows: int) -> Seq<char>
    decreases rows,
{
    if rows <= 0 {
        Seq::empty()
    } else {
        rows_text(m, b, rows - 1) + row_glyphs(m, b.max_y - (rows - 1), b.min_x as int, b.width()).push('\n')
    }
}

/// The text that draws the edges of `m`.
pub open spec fn picture(m: Map<(Point, Point), u8>) -> Seq<char> {
    rows_text(m, bounding_box(m), bounding_box(m).height())
}

/// Without edges the picture is the glyph of the origin, a blank, and a
/// line break.
pub proof fn lemma_empty_picture()
    ensures
        picture(Map::<(Point, Point), u8>::empty()) == seq![' ', '\n'],
{
    let m = Map::<(Point, Point), u8>::empty();
    let b = Bounds { min_x: 0, max_x: 0, min_y: 0, max_y: 0 };
    assert(is_bounding_box(m, b));
    lemma_bounding_box_unique(m, b, bounding_box(m));
    reveal_with_fuel(rows_text, 2);
    assert(row_glyphs(m, 0, 0, 1) =~= seq![' ']);
    assert(rows_text(m, b, 0) + seq![' '].push('\n') =~= seq![' ', '\n']);
}

/// Weighted unit edges between lattice points. The view maps each recorded
/// edge, named by its endpoints in order, to its weight.
pub struct LineGrid {
    edges: Vec<((Point, Point), u8)>,
}

impl View for LineGrid {
    type V = Map<(Point, Point), u8>;

    closed spec fn view(&self) -> Map<(Point, Point), u8> {
        let s = self.edges@;
        Map::new(
            |k: (Point, Point)| exists|i: int| 0 <= i < s.len() && (#[trigger] s[i]).0 == k,
            |k: (Point, Point)| s[choose|i: int| 0 <= i < s.len() && (#[trigger] s[i]).0 == k].1,
        )
    }
}

impl LineGrid {
    /// No edge is recorded twice.
    pub closed spec fn wf(&self) -> bool {
        forall|i: int, j: int|
            0 <= i < j < self.edges@.len() ==> (#[trigger] self.edges@[i]).0 != (#[trigger] self.edges@[j]).0
    }

    /// Every endpoint of a recorded edge has a neighbor on each side, so
    /// that the rendering can look around it.
    pub open spec fn drawable(&self) -> bool {
        forall|k: (Point, Point)| #[trigger] self@.contains_key(k) ==> interior(k.0) && interior(k.1)
    }

    proof fn lemma_entry(&self, i: int)
        requires
            self.wf(),
            0 <= i < self.edges@.len(),
        ensures
            self@.contains_key(self.edges@[i].0),
            self@[self.edges@[i].0] == self.edges@[i].1,
    {
    }

    /// A grid without edges.
    pub fn new() -> (g: LineGrid)
        ensures
            g.wf(),
            g@ == Map::<(Point, Point), u8>::empty(),
    {
        let g = LineGrid { edges: Vec::new() };
        assert(g@ =~= Map::<(Point, Point), u8>::empty());
        g
    }

    fn find(&self, k: (Point, Point)) -> (r: Option<usize>)
        requires
            self.wf(),
        ensures
            match r {
                Some(i) => i < self.edges@.len() && self.edges@[i as int].0 == k && self@.contains_key(k)
                    && self@[k] == self.edges@[i as int].1,
                None => !self@.contains_key(k),
            },
    {
        let mut i: usize = 0;
        while i < self.edges.len()
            invariant
                i <= self.edges@.len(),
                self.wf(),
                forall|j: int| 0 <= j < i ==> (#[trigger] self.edges@[j]).0 != k,
            decreases self.edges@.len() - i,
        {
            let e = self.edges[i].0;
            if e.0 == k.0 && e.1 == k.1 {
                proof {
                    self.lemma_entry(i as int);
                }
                return Some(i);
            }
            i += 1;
        }
        None
    }

    /// Records the weight `n` for the edge between `pa` and `pb`, in place
    /// of any weight recorded for it before.
    pub fn line(&mut self, pa: &Point, pb: &Point, n: u8)
        requires
            old(self).wf(),
        ensures
            final(self).wf(),
            final(self)@ == old(self)@.insert(ordered_pair(*pa, *pb), n),
    {
        let (a, b) = order_points(pa, pb);
        let k = (*a, *b);
        match self.find(k) {
            Some(i) => {
                self.edges.set(i, (k, n));
                assert(forall|j: int| 0 <= j < self.edges@.len() ==> (#[trigger] self.edges@[j]).0 == old(self).edges@[j].0);
                assert(self.edges@[i as int].0 == k);
            },
            None => {
                self.edges.push((k, n));
                assert(forall|j: int| 0 <= j < old(self).edges@.len() ==> (#[trigger] self.edges@[j]) == old(self).edges@[j]);
                assert(self.edges@[old(self).edges@.len() as int].0 == k);
            },
        }
        assert(self.wf());
        assert(self@ =~= old(self)@.insert(k, n)) by {
            assert forall|q: (Point, Point)| #[trigger] self@.contains_key(q) implies old(self)@.insert(k, n).contains_key(q) by {
                let j = choose|j: int| 0 <= j < self.edges@.len() && (#[trigger] self.edges@[j]).0 == q;
                if q != k {
                    assert(old(self).edges@[j].0 == q);
                }
            }
            assert forall|q: (Point, Point)| #[trigger] old(self)@.insert(k, n).contains_key(q) implies self@.contains_key(q) && self@[q] == old(self)@.insert(k, n)[q] by {
                if q != k {
                    let j = choose|j: int| 0 <= j < old(self).edges@.len() && (#[trigger] old(self).edges@[j]).0 == q;
                    assert(self.edges@[j].0 == q);
                    self.lemma_entry(j);
                    old(self).lemma_entry(j);
                } else {
                    let j = choose|j: int| 0 <= j < self.edges@.len() && (#[trigger] self.edges@[j]).0 == k;
                    self.lemma_entry(j);
                }
            }
        }
    }

    /// The weight recorded for the edge between `pa` and `pb`, or 0.
    pub fn get(&self, pa: &Point, pb: &Point) -> (w: u8)
        requires
            self.wf(),
        ensures
            w == weight_between(self@, *pa, *pb),
    {
        let (a, b) = order_points(pa, pb);
        match self.find((*a, *b)) {
            Some(i) => self.edges[i].1,
            None => 0,
        }
    }

    spec fn touches_x(&self, n: int, v: int) -> bool {
        exists|j: int| 0 <= j < n && ((#[trigger] self.edges@[j]).0.0.x == v || self.edges@[j].0.1.x == v)
    }

    spec fn touches_y(&self, n: int, v: int) -> bool {
        exists|j: int| 0 <= j < n && ((#[trigger] self.edges@[j]).0.0.y == v || self.edges@[j].0.1.y == v)
    }

    fn bounds(&self) -> (b: Bounds)
        requires
            self.wf(),
        ensures
            b == bounding_box(self@),
            is_bounding_box(self@, b),
    {
        let mut b = Bounds { min_x: 0, max_x: 0, min_y: 0, max_y: 0 };
        let mut i: usize = 0;
        while i < self.edges.len()
            invariant
                i <= self.edges@.len(),
                b.holds(Point { x: 0, y: 0 }),
                forall|j: int| 0 <= j < i ==> b.holds((#[trigger] self.edges@[j]).0.0) && b.holds(self.edges@[j].0.1),
                b.min_x == 0 || self.touches_x(i as int, b.min_x as int),
                b.max_x == 0 || self.touches_x(i as int, b.max_x as int),
                b.min_y == 0 || self.touches_y(i as int, b.min_y as int),
                b.max_y == 0 || self.touches_y(i as int, b.max_y as int),
            decreases self.edges@.len() - i,
        {
            let ghost before = b;
            let k = self.edges[i].0;
            let lo_x: i32 = if k.0.x < k.1.x { k.0.x } else { k.1.x };
            let hi_x: i32 = if k.0.x < k.1.x { k.1.x } else { k.0.x };
            let lo_y: i32 = if k.0.y < k.1.y { k.0.y } else { k.1.y };
            let hi_y: i32 = if k.0.y < k.1.y { k.1.y } else { k.0.y };
            if lo_x < b.min_x {
                b.min_x = lo_x;
            }
            if hi_x > b.max_x {
                b.max_x = hi_x;
            }
            if lo_y < b.min_y {
                b.min_y = lo_y;
            }
            if hi_y > b.max_y {
                b.max_y = hi_y;
            }
            proof {
                let e = self.edges@[i as int];
                assert(e.0 == k);
                assert(forall|v: int| self.touches_x(i as int, v) ==> self.touches_x(i + 1, v));
                assert(forall|v: int| self.touches_y(i as int, v) ==> self.touches_y(i + 1, v));
                assert(self.touches_x(i + 1, lo_x as int));
                assert(self.touches_x(i + 1, hi_x as int));
                assert(self.touches_y(i + 1, lo_y as int));
                assert(self.touches_y(i + 1, hi_y as int));
            }
            i += 1;
        }
        proof {
            let n = self.edges@.len() as int;
            assert forall|v: int| self.touches_x(n, v) implies exists|k: (Point, Point)| #[trigger]
                self@.contains_key(k) && (k.0.x == v || k.1.x == v) by {
                let j = choose|j: int| 0 <= j < n && ((#[trigger] self.edges@[j]).0.0.x == v || self.edges@[j].0.1.x == v);
                self.lemma_entry(j);
            }
            assert forall|v: int| self.touches_y(n, v) implies exists|k: (Point, Point)| #[trigger]
                self@.contains_key(k) && (k.0.y == v || k.1.y == v) by {
                let j = choose|j: int| 0 <= j < n && ((#[trigger] self.edges@[j]).0.0.y == v || self.edges@[j].0.1.y == v);
                self.lemma_entry(j);
            }
            assert(is_bounding_box(self@, b));
            lemma_bounding_box_unique(self@, b, bounding_box(self@));
        }
        b
    }

    /// Draws the grid: one glyph for each lattice point of the bounding box
    /// of the origin and the recorded edges, row by row from the largest `y`
    /// down, each row closed by a line break.
    pub fn render(&self) -> (r: String)
        requires
            self.wf(),
            self.drawable(),
        ensures
            r@ == picture(self@),
    {
        let b = self.bounds();
        assert(i32::MIN < b.min_x && b.max_x < i32::MAX && i32::MIN < b.min_y && b.max_y < i32::MAX);
        let height: i64 = b.max_y as i64 - b.min_y as i64 + 1;
        let width: i64 = b.max_x as i64 - b.min_x as i64 + 1;
        let mut result = String::new();
        let mut row: i64 = 0;
        while row < height
            invariant
                self.wf(),
                0 <= row <= height,
                1 <= width,
                height == b.height(),
                width == b.width(),
                i32::MIN < b.min_x && b.max_x < i32::MAX && i32::MIN < b.min_y && b.max_y < i32::MAX,
                result@ == rows_text(self@, b, row as int),
            decreases height - row,
        {
            let y: i32 = (b.max_y as i64 - row) as i32;
            let mut col: i64 = 0;
            while col < width
                invariant
                    self.wf(),
                    0 <= col <= width,
                    0 <= row < height,
                    height == b.height(),
                    width == b.width(),
                    y == b.max_y - row,
                    i32::MIN < b.min_x && b.max_x < i32::MAX && i32::MIN < b.min_y && b.max_y < i32::MAX,
                    result@ == rows_text(self@, b, row as int) + row_glyphs(self@, y as int, b.min_x as int, col as int),
                decreases width - col,
            {
                let x: i32 = (b.min_x as i64 + col) as i32;
                let here = point(x, y);
                let mut lines: Vec<u8> = Vec::new();
                let mut d: usize = 0;
                while d < 4
                    invariant
                        d <= 4,
                        self.wf(),
                        interior(here),
                        lines@.len() == d,
                        forall|j: int|
                            0 <= j < d ==> lines@[j] == weight_between(self@, here, here.step(#[trigger] DIRECTIONS[j])),
                    decreases 4 - d,
                {
                    let next = offset(&here, &DIRECTIONS[d]);
                    lines.push(self.get(&here, &next));
                    d += 1;
                }
                assert(DIRECTIONS[0] == Direction::Up && DIRECTIONS[1] == Direction::Right && DIRECTIONS[2]
                    == Direction::Down && DIRECTIONS[3] == Direction::Left);
                let c = match boxc(&lines) {
                    Some(c) => c,
                    None => ERROR_CHAR,
                };
                result.push(c);
                proof {
                    assert(c == glyph_at(self@, here));
                    assert(row_glyphs(self@, y as int, b.min_x as int, col + 1)
                        =~= row_glyphs(self@, y as int, b.min_x as int, col as int).push(c));
                    assert(result@ =~= rows_text(self@, b, row as int) + row_glyphs(self@, y as int, b.min_x as int, col + 1));
                }
                col += 1;
            }
            result.push('\n');
            row += 1;
        }
        result
    }
}

} // verus!
