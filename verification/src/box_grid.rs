//! A sparse grid of colored unit cells.

use vstd::prelude::*;
use crate::geometry::{double_x, lattice, offset, ordered_pair, Direction, Point};
use crate::shape::Shape;
use crate::line_grid::{interior, lemma_empty_picture, picture, LineGrid};

verus! {

/// A color id: 0 is the empty background, every other value an occupied cell.
pub type Color = u8;

/// The color of a cell that holds nothing.
pub const EMPTY: Color = 0;

/// The color of the cell at `p`: the recorded one, or the empty color.
pub open spec fn color_at(m: Map<Point, u8>, p: Point) -> u8 {
    if m.contains_key(p) {
        m[p]
    } else {
        0
    }
}

/// The colors after every cell of `s` got the color `color`.
pub open spec fn painted(m: Map<Point, u8>, s: Seq<Point>, color: u8) -> Map<Point, u8> {
    Map::new(
        |p: Point| m.contains_key(p) || s.contains(p),
        |p: Point| if s.contains(p) { color } else { m[p] },
    )
}

/// Whether every cell of `s` is empty in `m`.
pub open spec fn all_clear(m: Map<Point, u8>, s: Seq<Point>) -> bool {
    forall|i: int| 0 <= i < s.len() ==> color_at(m, #[trigger] s[i]) == 0
}

/// Whether the cell at `b` and its right neighbor differ in color.
pub open spec fn right_border(m: Map<Point, u8>, b: Point) -> bool {
    b.x < i32::MAX && color_at(m, b) != color_at(m, b.step(Direction::Right))
}

/// Whether the cell at `b` and the cell below it differ in color.
pub open spec fn lower_border(m: Map<Point, u8>, b: Point) -> bool {
    b.y > i32::MIN && color_at(m, b) != color_at(m, b.step(Direction::Down))
}

/// The edge that separates the cell at `b` from its right neighbor: in the
/// lattice with doubled `x`, the vertical unit edge at twice the neighbor's
/// `x`, from `b.y` down to `b.y - 1`.
pub open spec fn right_edge(b: Point) -> (Point, Point) {
    ordered_pair(lattice(2 * (b.x + 1), b.y as int), lattice(2 * (b.x + 1), b.y - 1))
}

/// The left half of the line below the cell at `b`.
pub open spec fn lower_edge_left(b: Point) -> (Point, Point) {
    ordered_pair(lattice(2 * b.x, b.y - 1), lattice(2 * b.x + 1, b.y - 1))
}

/// The right half of the line below the cell at `b`.
pub open spec fn lower_edge_right(b: Point) -> (Point, Point) {
    ordered_pair(lattice(2 * b.x + 1, b.y - 1), lattice(2 * b.x + 2, b.y - 1))
}

/// Whether the colors around the cell at `b` put a line on the edge `k`.
pub open spec fn draws(m: Map<Point, u8>, b: Point, k: (Point, Point)) -> bool {
    ||| right_border(m, b) && k == right_edge(b)
    ||| lower_border(m, b) && (k == lower_edge_left(b) || k == lower_edge_right(b))
}

/// The lines between cells of different color: a single line on every edge
/// that separates two such cells, and on no other.
pub open spec fn border_lines(m: Map<Point, u8>) -> Map<(Point, Point), u8> {
    Map::new(|k: (Point, Point)| exists|b: Point| draws(m, b, k), |k: (Point, Point)| 1u8)
}

/// Where every cell is empty there is no border, and the picture is a
/// single blank and a line break.
pub proof fn lemma_empty_grid_picture()
    ensures
        border_lines(Map::<Point, u8>::empty()) == Map::<(Point, Point), u8>::empty(),
        picture(border_lines(Map::<Point, u8>::empty())) == seq![' ', '\n'],
{
    assert(border_lines(Map::<Point, u8>::empty()) =~= Map::<(Point, Point), u8>::empty());
    lemma_empty_picture();
}

/// Where every recorded cell has room for its borders, the lines are
/// exactly the borders: the edge to the right of a cell is drawn if and
/// only if the cell and its right neighbor differ in color, and each half of
/// the edge below it if and only if the cell and the one below it differ.
pub proof fn lemma_border_lines_exact(m: Map<Point, u8>, b: Point)
    requires
        forall|p: Point| #[trigger] m.contains_key(p) ==> cell_fits(p),
        -0x3fff_ffff <= b.x <= 0x3fff_fffe,
        i32::MIN + 1 < b.y < i32::MAX,
    ensures
        border_lines(m).contains_key(right_edge(b)) <==> right_border(m, b),
        border_lines(m).contains_key(lower_edge_left(b)) <==> lower_border(m, b),
        border_lines(m).contains_key(lower_edge_right(b)) <==> lower_border(m, b),
        forall|k: (Point, Point)| #[trigger] border_lines(m).contains_key(k) ==> border_lines(m)[k] == 1,
{
    assert forall|a: Point, k: (Point, Point)| draws(m, a, k) implies -0x3fff_ffff <= a.x <= 0x3fff_fffe && i32::MIN
        + 1 < a.y < i32::MAX by {
        if right_border(m, a) {
            assert(m.contains_key(a) || m.contains_key(a.step(Direction::Right)));
        }
        if lower_border(m, a) {
            assert(m.contains_key(a) || m.contains_key(a.step(Direction::Down)));
        }
    }
    if right_border(m, b) {
        assert(draws(m, b, right_edge(b)));
    }
    if lower_border(m, b) {
        assert(draws(m, b, lower_edge_left(b)));
        assert(draws(m, b, lower_edge_right(b)));
    }
    if border_lines(m).contains_key(right_edge(b)) {
        let a = choose|a: Point| draws(m, a, right_edge(b));
        assert(a == b);
    }
    if border_lines(m).contains_key(lower_edge_left(b)) {
        let a = choose|a: Point| draws(m, a, lower_edge_left(b));
        assert(a == b);
    }
    if border_lines(m).contains_key(lower_edge_right(b)) {
        let a = choose|a: Point| draws(m, a, lower_edge_right(b));
        assert(a == b);
    }
}

/// The lines `lines`, and those that the colors around the cell at `b` add.
pub open spec fn with_borders(lines: Map<(Point, Point), u8>, m: Map<Point, u8>, b: Point) -> Map<(Point, Point), u8> {
    Map::new(
        |k: (Point, Point)| lines.contains_key(k) || draws(m, b, k),
        |k: (Point, Point)| if draws(m, b, k) { 1u8 } else { lines[k] },
    )
}

/// A cell whose borders have room in the lattice with doubled `x`.
pub open spec fn cell_fits(p: Point) -> bool {
    -0x3fff_fffe <= p.x <= 0x3fff_fffe && i32::MIN + 1 < p.y < i32::MAX - 1
}

/// Whether the borders of the cell at `p` are looked for from `b`: from
/// the cell itself, from the one above it and from the one left of it.
pub open spec fn is_anchor_of(p: Point, b: Point) -> bool {
    b == p || b == p.step(Direction::Up) || b == p.step(Direction::Left)
}

spec fn anchor_fits(b: Point) -> bool {
    -0x3fff_ffff <= b.x <= 0x3fff_fffe && i32::MIN + 1 < b.y < i32::MAX
}

/// Colored cells. The view maps each recorded cell to its color; a cell
/// that is not recorded is empty.
pub struct BoxGrid {
    cells: Vec<(Point, u8)>,
}

impl View for BoxGrid {
    type V = Map<Point, u8>;

    closed spec fn view(&self) -> Map<Point, u8> {
        let s = self.cells@;
        Map::new(
            |p: Point| exists|i: int| 0 <= i < s.len() && (#[trigger] s[i]).0 == p,
            |p: Point| s[choose|i: int| 0 <= i < s.len() && (#[trigger] s[i]).0 == p].1,
        )
    }
}

impl BoxGrid {
    /// No cell is recorded twice.
    pub closed spec fn wf(&self) -> bool {
        forall|i: int, j: int|
            0 <= i < j < self.cells@.len() ==> (#[trigger] self.cells@[i]).0 != (#[trigger] self.cells@[j]).0
    }

    proof fn lemma_entry(&self, i: int)
        requires
            self.wf(),
            0 <= i < self.cells@.len(),
        ensures
            self@.contains_key(self.cells@[i].0),
            self@[self.cells@[i].0] == self.cells@[i].1,
    {
    }

    /// A grid in which every cell is empty.
    pub fn new() -> (g: BoxGrid)
        ensures
            g.wf(),
            g@ == Map::<Point, u8>::empty(),
    {
        let g = BoxGrid { cells: Vec::new() };
        assert(g@ =~= Map::<Point, u8>::empty());
        g
    }

    fn find(&self, p: &Point) -> (r: Option<usize>)
        requires
            self.wf(),
        ensures
            match r {
                Some(i) => i < self.cells@.len() && self.cells@[i as int].0 == *p && self@.contains_key(*p)
                    && self@[*p] == self.cells@[i as int].1,
                None => !self@.contains_key(*p),
            },
    {
        let mut i: usize = 0;
        while i < self.cells.len()
            invariant
                i <= self.cells@.len(),
                self.wf(),
                forall|j: int| 0 <= j < i ==> (#[trigger] self.cells@[j]).0 != *p,
            decreases self.cells@.len() - i,
        {
            if self.cells[i].0 == *p {
                proof {
                    self.lemma_entry(i as int);
                }
                return Some(i);
            }
            i += 1;
        }
        None
    }

    /// Gives the cell at `p` the color `color`, whatever it held.
    pub fn set(&mut self, p: &Point, color: u8)
        requires
            old(self).wf(),
        ensures
            final(self).wf(),
            final(self)@ == old(self)@.insert(*p, color),
    {
        let k = *p;
        match self.find(p) {
            Some(i) => {
                self.cells.set(i, (k, color));
                assert(forall|j: int| 0 <= j < self.cells@.len() ==> (#[trigger] self.cells@[j]).0 == old(self).cells@[j].0);
                assert(self.cells@[i as int].0 == k);
            },
            None => {
                self.cells.push((k, color));
                assert(forall|j: int| 0 <= j < old(self).cells@.len() ==> (#[trigger] self.cells@[j]) == old(self).cells@[j]);
                assert(self.cells@[old(self).cells@.len() as int].0 == k);
            },
        }
        assert(self.wf());
        assert(self@ =~= old(self)@.insert(k, color)) by {
            assert forall|q: Point| #[trigger] self@.contains_key(q) implies old(self)@.insert(k, color).contains_key(q) by {
                let j = choose|j: int| 0 <= j < self.cells@.len() && (#[trigger] self.cells@[j]).0 == q;
                if q != k {
                    assert(old(self).cells@[j].0 == q);
                }
            }
            assert forall|q: Point| #[trigger] old(self)@.insert(k, color).contains_key(q) implies self@.contains_key(q)
                && self@[q] == old(self)@.insert(k, color)[q] by {
                if q != k {
                    let j = choose|j: int| 0 <= j < old(self).cells@.len() && (#[trigger] old(self).cells@[j]).0 == q;
                    assert(self.cells@[j].0 == q);
                    self.lemma_entry(j);
                    old(self).lemma_entry(j);
                } else {
                    let j = choose|j: int| 0 <= j < self.cells@.len() && (#[trigger] self.cells@[j]).0 == k;
                    self.lemma_entry(j);
                }
            }
        }
    }

    /// Gives every cell of `shape` the color `color`.
    pub fn set_shape(&mut self, shape: &Shape, color: u8)
        requires
            old(self).wf(),
        ensures
            final(self).wf(),
            final(self)@ == painted(old(self)@, shape@, color),
    {
        let mut i: usize = 0;
        assert(self@ =~= painted(old(self)@, shape@.take(0), color));
        while i < shape.len()
            invariant
                i <= shape@.len(),
                self.wf(),
                self@ == painted(old(self)@, shape@.take(i as int), color),
            decreases shape@.len() - i,
        {
            self.set(&shape[i], color);
            proof {
                let a = shape@.take(i as int);
                let b = shape@.take(i + 1);
                assert(b =~= a.push(shape@[i as int]));
                assert(forall|p: Point| b.contains(p) <==> a.contains(p) || p == shape@[i as int]) by {
                    assert(forall|j: int| 0 <= j < a.len() ==> a[j] == b[j]);
                    assert(b[i as int] == shape@[i as int]);
                }
                assert(self@ =~= painted(old(self)@, b, color));
            }
            i += 1;
        }
        assert(shape@.take(shape@.len() as int) =~= shape@);
    }

    /// Empties the cell at `p`.
    pub fn unset(&mut self, p: &Point)
        requires
            old(self).wf(),
        ensures
            final(self).wf(),
            final(self)@ == old(self)@.remove(*p),
    {
        let k = *p;
        match self.find(p) {
            Some(i) => {
                self.cells.remove(i);
                assert(forall|j: int| 0 <= j < i ==> (#[trigger] self.cells@[j]) == old(self).cells@[j]);
                assert(forall|j: int| i <= j < self.cells@.len() ==> (#[trigger] self.cells@[j]) == old(self).cells@[j + 1]);
                assert(self.wf());
                assert(self@ =~= old(self)@.remove(k)) by {
                    assert forall|q: Point| #[trigger] self@.contains_key(q) implies old(self)@.remove(k).contains_key(q)
                        && self@[q] == old(self)@[q] by {
                        let j = choose|j: int| 0 <= j < self.cells@.len() && (#[trigger] self.cells@[j]).0 == q;
                        let j0 = if j < i { j } else { j + 1 };
                        assert(old(self).cells@[j0].0 == q);
                        old(self).lemma_entry(j0);
                        self.lemma_entry(j);
                    }
                    assert forall|q: Point| #[trigger] old(self)@.remove(k).contains_key(q) implies self@.contains_key(q) by {
                        let j = choose|j: int| 0 <= j < old(self).cells@.len() && (#[trigger] old(self).cells@[j]).0 == q;
                        let j1 = if j < i { j } else { j - 1 };
                        assert(self.cells@[j1].0 == q);
                    }
                }
            },
            None => {
                assert(self@ =~= old(self)@.remove(k));
            },
        }
    }

    /// Empties every cell of `shape`.
    pub fn unset_shape(&mut self, shape: &Shape)
        requires
            old(self).wf(),
        ensures
            final(self).wf(),
            final(self)@ == old(self)@.remove_keys(shape@.to_set()),
    {
        let mut i: usize = 0;
        assert(self@ =~= old(self)@.remove_keys(shape@.take(0).to_set()));
        while i < shape.len()
            invariant
                i <= shape@.len(),
                self.wf(),
                self@ == old(self)@.remove_keys(shape@.take(i as int).to_set()),
            decreases shape@.len() - i,
        {
            self.unset(&shape[i]);
            proof {
                let a = shape@.take(i as int);
                let b = shape@.take(i + 1);
                assert(b =~= a.push(shape@[i as int]));
                assert(forall|p: Point| b.contains(p) <==> a.contains(p) || p == shape@[i as int]) by {
                    assert(forall|j: int| 0 <= j < a.len() ==> a[j] == b[j]);
                    assert(b[i as int] == shape@[i as int]);
                }
                assert(self@ =~= old(self)@.remove_keys(b.to_set()));
            }
            i += 1;
        }
        assert(shape@.take(shape@.len() as int) =~= shape@);
    }

    /// The color of the cell at `p`.
    pub fn get(&self, p: &Point) -> (c: u8)
        requires
            self.wf(),
        ensures
            c == color_at(self@, *p),
    {
        match self.find(p) {
            Some(i) => self.cells[i].1,
            None => EMPTY,
        }
    }

    /// The recorded cells, each once.
    pub fn keys(&self) -> (r: Vec<Point>)
        requires
            self.wf(),
        ensures
            r@.no_duplicates(),
            r@.to_set() == self@.dom(),
    {
        let mut r: Vec<Point> = Vec::new();
        let mut i: usize = 0;
        while i < self.cells.len()
            invariant
                i <= self.cells@.len(),
                r@.len() == i,
                forall|j: int| 0 <= j < i ==> (#[trigger] r@[j]) == self.cells@[j].0,
            decreases self.cells@.len() - i,
        {
            r.push(self.cells[i].0);
            i += 1;
        }
        proof {
            assert(r@.to_set() =~= self@.dom()) by {
                assert forall|q: Point| r@.to_set().contains(q) implies self@.dom().contains(q) by {
                    let j = choose|j: int| 0 <= j < r@.len() && r@[j] == q;
                    self.lemma_entry(j);
                }
                assert forall|q: Point| self@.dom().contains(q) implies r@.to_set().contains(q) by {
                    let j = choose|j: int| 0 <= j < self.cells@.len() && (#[trigger] self.cells@[j]).0 == q;
                    assert(r@[j] == q);
                }
            }
        }
        r
    }

    /// Whether every cell of `shape` is empty.
    pub fn is_clear(&self, shape: &Shape) -> (r: bool)
        requires
            self.wf(),
        ensures
            r == all_clear(self@, shape@),
    {
        let mut i: usize = 0;
        while i < shape.len()
            invariant
                i <= shape@.len(),
                self.wf(),
                forall|j: int| 0 <= j < i ==> color_at(self@, #[trigger] shape@[j]) == 0,
            decreases shape@.len() - i,
        {
            if self.get(&shape[i]) != EMPTY {
                return false;
            }
            i += 1;
        }
        true
    }

    /// Every recorded cell has room for its borders.
    pub open spec fn drawable(&self) -> bool {
        forall|p: Point| #[trigger] self@.contains_key(p) ==> cell_fits(p)
    }

    spec fn anchor_among(&self, n: int, b: Point) -> bool {
        exists|j: int| 0 <= j < n && is_anchor_of((#[trigger] self.cells@[j]).0, b)
    }

    spec fn lines_from(&self, n: int) -> Map<(Point, Point), u8> {
        Map::new(
            |k: (Point, Point)| exists|b: Point| self.anchor_among(n, b) && draws(self@, b, k),
            |k: (Point, Point)| 1u8,
        )
    }

    fn draw_borders(&self, grid: &mut LineGrid, b: &Point)
        requires
            self.wf(),
            old(grid).wf(),
            anchor_fits(*b),
        ensures
            final(grid).wf(),
            final(grid)@ == with_borders(old(grid)@, self@, *b),
            forall|k: (Point, Point)| draws(self@, *b, k) ==> interior(k.0) && interior(k.1),
    {
        let b_right = offset(b, &Direction::Right);
        let b_down = offset(b, &Direction::Down);
        if self.get(b) != self.get(&b_right) {
            let start = double_x(&b_right);
            let end = offset(&start, &Direction::Down);
            grid.line(&start, &end, 1);
            assert(ordered_pair(start, end) == right_edge(*b));
        }
        if self.get(b) != self.get(&b_down) {
            let start = double_x(&b_down);
            let middle = offset(&start, &Direction::Right);
            let end = offset(&middle, &Direction::Right);
            grid.line(&start, &middle, 1);
            grid.line(&middle, &end, 1);
            assert(ordered_pair(start, middle) == lower_edge_left(*b));
            assert(ordered_pair(middle, end) == lower_edge_right(*b));
        }
        assert(grid@ =~= with_borders(old(grid)@, self@, *b));
    }

    proof fn lemma_anchors_suffice(&self, b: Point, k: (Point, Point))
        requires
            self.wf(),
            draws(self@, b, k),
        ensures
            self.anchor_among(self.cells@.len() as int, b),
    {
        let n = self.cells@.len() as int;
        let q = if right_border(self@, b) && k == right_edge(b) {
            b.step(Direction::Right)
        } else {
            b.step(Direction::Down)
        };
        let p = if self@.contains_key(b) { b } else { q };
        assert(self@.contains_key(p));
        let j = choose|j: int| 0 <= j < n && (#[trigger] self.cells@[j]).0 == p;
        assert(is_anchor_of(self.cells@[j].0, b));
    }

    /// Draws the borders between cells of different color as box-drawing
    /// text.
    pub fn render(&self) -> (r: String)
        requires
            self.wf(),
            self.drawable(),
        ensures
            r@ == picture(border_lines(self@)),
    {
        let mut line_grid = LineGrid::new();
        let mut i: usize = 0;
        assert(line_grid@ =~= self.lines_from(0));
        while i < self.cells.len()
            invariant
                i <= self.cells@.len(),
                self.wf(),
                self.drawable(),
                line_grid.wf(),
                line_grid.drawable(),
                line_grid@ == self.lines_from(i as int),
            decreases self.cells@.len() - i,
        {
            let b = self.cells[i].0;
            proof {
                self.lemma_entry(i as int);
            }
            let up = offset(&b, &Direction::Up);
            let left = offset(&b, &Direction::Left);
            let ghost l0 = line_grid@;
            self.draw_borders(&mut line_grid, &b);
            self.draw_borders(&mut line_grid, &up);
            self.draw_borders(&mut line_grid, &left);
            proof {
                let m = self@;
                assert forall|k: (Point, Point)| #[trigger] line_grid@.contains_key(k) implies self.lines_from(i + 1).contains_key(k) by {
                    if l0.contains_key(k) {
                        let a = choose|a: Point| self.anchor_among(i as int, a) && draws(m, a, k);
                        assert(self.anchor_among(i + 1, a));
                    } else {
                        let a = if draws(m, b, k) { b } else if draws(m, up, k) { up } else { left };
                        assert(is_anchor_of(self.cells@[i as int].0, a));
                        assert(self.anchor_among(i + 1, a) && draws(m, a, k));
                    }
                }
                assert forall|k: (Point, Point)| #[trigger] self.lines_from(i + 1).contains_key(k) implies line_grid@.contains_key(k)
                    && line_grid@[k] == 1u8 by {
                    let a = choose|a: Point| self.anchor_among(i + 1, a) && draws(m, a, k);
                    let j = choose|j: int| 0 <= j < i + 1 && is_anchor_of((#[trigger] self.cells@[j]).0, a);
                    if j < i {
                        assert(self.anchor_among(i as int, a));
                        assert(l0.contains_key(k));
                    }
                }
                assert(line_grid@ =~= self.lines_from(i + 1));
            }
            i += 1;
        }
        proof {
            let n = self.cells@.len() as int;
            assert forall|k: (Point, Point)| #[trigger] border_lines(self@).contains_key(k) implies self.lines_from(n).contains_key(k) by {
                let a = choose|a: Point| draws(self@, a, k);
                self.lemma_anchors_suffice(a, k);
            }
            assert(line_grid@ =~= border_lines(self@));
        }
        line_grid.render()
    }
}

} // verus!
