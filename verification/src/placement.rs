//! The search for a place on the board where a shape fits.

use vstd::prelude::*;
use rand::rngs::StdRng;
use rand::seq::SliceRandom;
use crate::box_grid::{all_clear, color_at, BoxGrid};
use crate::geometry::{lattice, point, Point};
use crate::shape::{can_shift, copy_shape, fits_span, lemma_rotations, move_shape, moved, rotations, rotations_of, views, Shape};

verus! {

/// The leftmost column of the board.
pub const X_LO: i32 = 0;

/// The rightmost column of the board.
pub const X_HI: i32 = 9;

/// The lowest row of the board.
pub const Y_LO: i32 = 0;

/// The highest row of the board.
pub const Y_HI: i32 = 19;

/// Whether the cell at `p` is one of the board.
pub open spec fn on_board(p: Point) -> bool {
    X_LO <= p.x <= X_HI && Y_LO <= p.y <= Y_HI
}

/// Whether every cell of `s` is one of the board.
pub open spec fn within_board(s: Seq<Point>) -> bool {
    forall|i: int| 0 <= i < s.len() ==> on_board(#[trigger] s[i])
}

/// Whether the shape `r`, translated by `(x, y)`, lies on the board.
pub open spec fn lands_on_board(r: Seq<Point>, x: int, y: int) -> bool {
    forall|i: int|
        0 <= i < r.len() ==> X_LO <= (#[trigger] r[i]).x + x <= X_HI && Y_LO <= r[i].y + y <= Y_HI
}

/// The shape `r` translated by `(x, y)`.
pub open spec fn placed(r: Seq<Point>, x: int, y: int) -> Seq<Point> {
    moved(r, lattice(x, y))
}

/// The placements at column `x` of row `y`, of the first `k` shapes of
/// `rots` in their sequence, as far as they lie on the board.
pub open spec fn placements_at(rots: Seq<Seq<Point>>, x: int, y: int, k: int) -> Seq<Seq<Point>>
    decreases k,
{
    if k <= 0 {
        Seq::empty()
    } else if lands_on_board(rots[k - 1], x, y) {
        placements_at(rots, x, y, k - 1).push(placed(rots[k - 1], x, y))
    } else {
        placements_at(rots, x, y, k - 1)
    }
}

/// The placements in row `y`, at the first `j` columns of `xs` in their
/// sequence.
pub open spec fn placements_in_row(rots: Seq<Seq<Point>>, xs: Seq<i32>, y: int, j: int) -> Seq<Seq<Point>>
    decreases j,
{
    if j <= 0 {
        Seq::empty()
    } else {
        placements_in_row(rots, xs, y, j - 1) + placements_at(rots, xs[j - 1] as int, y, rots.len() as int)
    }
}

/// The placements in the lowest `rows` rows of the board, from the lowest
/// row upwards.
pub open spec fn placements_upto(rots: Seq<Seq<Point>>, xs: Seq<i32>, rows: int) -> Seq<Seq<Point>>
    decreases rows,
{
    if rows <= 0 {
        Seq::empty()
    } else {
        placements_upto(rots, xs, rows - 1) + placements_in_row(rots, xs, Y_LO + rows - 1, xs.len() as int)
    }
}

/// Every placement on the board of a shape of `rots` at a column of `xs`:
/// row by row from the lowest, in each row column by column as `xs` gives
/// them, at each column shape by shape as `rots` gives them.
pub open spec fn placements(rots: Seq<Seq<Point>>, xs: Seq<i32>) -> Seq<Seq<Point>> {
    placements_upto(rots, xs, Y_HI - Y_LO + 1)
}

/// The first shape of `c` whose cells are all empty in `m`, if there is one.
pub open spec fn first_clear(m: Map<Point, u8>, c: Seq<Seq<Point>>) -> Option<Seq<Point>>
    decreases c.len(),
{
    if c.len() == 0 {
        None
    } else if all_clear(m, c.first()) {
        Some(c.first())
    } else {
        first_clear(m, c.drop_first())
    }
}

/// Whether every cell of the shape is one of the board.
pub fn in_bounds(shape: &Shape) -> (r: bool)
    ensures
        r == within_board(shape@),
{
    let mut i: usize = 0;
    while i < shape.len()
        invariant
            i <= shape@.len(),
            forall|j: int| 0 <= j < i ==> on_board(#[trigger] shape@[j]),
        decreases shape@.len() - i,
    {
        let p = shape[i];
        if !(p.x >= X_LO && p.x <= X_HI && p.y >= Y_LO && p.y <= Y_HI) {
            return false;
        }
        i += 1;
    }
    true
}

fn can_move(shape: &Shape, o: &Point) -> (r: bool)
    ensures
        r == can_shift(shape@, o.x as int, o.y as int),
{
    let mut i: usize = 0;
    while i < shape.len()
        invariant
            i <= shape@.len(),
            forall|j: int|
                0 <= j < i ==> i32::MIN <= (#[trigger] shape@[j]).x + o.x <= i32::MAX && i32::MIN <= shape@[j].y
                    + o.y <= i32::MAX,
        decreases shape@.len() - i,
    {
        let x: i64 = shape[i].x as i64 + o.x as i64;
        let y: i64 = shape[i].y as i64 + o.y as i64;
        if x < i32::MIN as i64 || x > i32::MAX as i64 || y < i32::MIN as i64 || y > i32::MAX as i64 {
            return false;
        }
        i += 1;
    }
    true
}

/// Every placement on the board of a shape of `rots` at a column of `xs`,
/// in the sequence in which the search tries them: rows from the lowest up,
/// in each row the columns as `xs` gives them, at each column the shapes as
/// `rots` gives them.
pub fn positions_in_order(rots: &Vec<Shape>, xs: &Vec<i32>) -> (r: Vec<Shape>)
    ensures
        views(r@) == placements(views(rots@), xs@),
{
    let ghost rs = views(rots@);
    let mut result: Vec<Shape> = Vec::new();
    let mut y: i32 = Y_LO;
    assert(views(result@) =~= placements_upto(rs, xs@, 0));
    while y <= Y_HI
        invariant
            Y_LO <= y <= Y_HI + 1,
            rs == views(rots@),
            views(result@) == placements_upto(rs, xs@, y - Y_LO),
        decreases Y_HI + 1 - y,
    {
        let mut j: usize = 0;
        assert(views(result@) =~= placements_upto(rs, xs@, y - Y_LO) + placements_in_row(rs, xs@, y as int, 0));
        while j < xs.len()
            invariant
                Y_LO <= y <= Y_HI,
                j <= xs@.len(),
                rs == views(rots@),
                views(result@) == placements_upto(rs, xs@, y - Y_LO) + placements_in_row(rs, xs@, y as int, j as int),
            decreases xs@.len() - j,
        {
            let x = xs[j];
            let o = point(x, y);
            let mut k: usize = 0;
            let ghost done = views(result@);
            assert(views(result@) =~= done + placements_at(rs, x as int, y as int, 0));
            while k < rots.len()
                invariant
                    k <= rots@.len(),
                    rs == views(rots@),
                    o == lattice(x as int, y as int),
                    views(result@) == done + placements_at(rs, x as int, y as int, k as int),
                decreases rots@.len() - k,
            {
                let ghost before = views(result@);
                assert(rs[k as int] == rots@[k as int]@);
                if can_move(&rots[k], &o) {
                    let t3 = move_shape(&rots[k], &o);
                    if in_bounds(&t3) {
                        result.push(t3);
                        assert(lands_on_board(rs[k as int], x as int, y as int)) by {
                            assert forall|i: int| 0 <= i < rs[k as int].len() implies X_LO <= (#[trigger] rs[k as int][i]).x
                                + x <= X_HI && Y_LO <= rs[k as int][i].y + y <= Y_HI by {
                                assert(on_board(t3@[i]));
                            }
                        }
                        assert(views(result@) =~= before.push(placed(rs[k as int], x as int, y as int)));
                    } else {
                        assert(!lands_on_board(rs[k as int], x as int, y as int)) by {
                            if lands_on_board(rs[k as int], x as int, y as int) {
                                assert forall|i: int| 0 <= i < t3@.len() implies on_board(#[trigger] t3@[i]) by {
                                    assert(X_LO <= rs[k as int][i].x + x <= X_HI);
                                }
                            }
                        }
                    }
                } else {
                    assert(!lands_on_board(rs[k as int], x as int, y as int));
                }
                k += 1;
            }
            j += 1;
        }
        y += 1;
    }
    result
}

/// The first of the candidates whose cells are all empty in the grid.
pub fn first_fit(candidates: Vec<Shape>, grid: &BoxGrid) -> (r: Option<Shape>)
    requires
        grid.wf(),
    ensures
        match r {
            Some(s) => first_clear(grid@, views(candidates@)) == Some(s@),
            None => first_clear(grid@, views(candidates@)).is_none(),
        },
{
    let mut rest = candidates;
    let mut i: usize = 0;
    let ghost all = views(candidates@);
    assert(all.skip(0) =~= all);
    while i < rest.len()
        invariant
            i <= rest@.len(),
            rest@ == candidates@,
            all == views(candidates@),
            grid.wf(),
            first_clear(grid@, all) == first_clear(grid@, all.skip(i as int)),
        decreases rest@.len() - i,
    {
        assert(all.skip(i as int).first() == rest@[i as int]@);
        assert(all.skip(i as int).drop_first() =~= all.skip(i + 1));
        if grid.is_clear(&rest[i]) {
            let s = rest.swap_remove(i);
            return Some(s);
        }
        i += 1;
    }
    None
}

/// The columns of the board, from the leftmost to the rightmost.
pub open spec fn columns() -> Seq<i32> {
    Seq::new((X_HI - X_LO + 1) as nat, |i: int| (X_LO + i) as i32)
}

/// Whether `rots` holds the rotations of `t` and `xs` the columns of the
/// board, each in some sequence.
pub open spec fn is_search_order(rots: Seq<Seq<Point>>, xs: Seq<i32>, t: Seq<Point>) -> bool {
    rots.to_multiset() == rotations_of(t).to_multiset() && xs.to_multiset() == columns().to_multiset()
}

/// Whether the rotation `r` of `t`, translated by `(x, y)`, lies on the
/// board and covers only empty cells of `m`.
pub open spec fn fits_at(t: Seq<Point>, m: Map<Point, u8>, r: Seq<Point>, x: int, y: int) -> bool {
    &&& rotations_of(t).contains(r)
    &&& X_LO <= x <= X_HI
    &&& Y_LO <= y <= Y_HI
    &&& lands_on_board(r, x, y)
    &&& all_clear(m, placed(r, x, y))
}

/// Whether `c` is a rotation of `t` somewhere on the board, on cells that
/// are all empty in `m`.
pub open spec fn legal_placement(t: Seq<Point>, m: Map<Point, u8>, c: Seq<Point>) -> bool {
    exists|r: Seq<Point>, x: int, y: int| #[trigger] fits_at(t, m, r, x, y) && c == placed(r, x, y)
}

/// Whether no cell of the board is empty in `m`.
pub open spec fn board_full(m: Map<Point, u8>) -> bool {
    forall|p: Point| on_board(p) ==> color_at(m, p) != 0
}

/// The random number generator `StdRng` of rand: the source of randomness
/// of the search. Nothing is known of its state.
#[verifier::external_type_specification]
#[verifier::external_body]
pub struct ExStdRng(StdRng);

/// `SliceRandom::shuffle` of rand rearranges the items of a slice in place
/// by swapping pairs of them, as the random source decides: afterwards the
/// vector holds the same items, each as often as before.
#[verifier::external_body]
fn shuffle<T>(v: &mut Vec<T>, rng: &mut StdRng)
    ensures
        final(v)@.to_multiset() == old(v)@.to_multiset(),
{
    v.as_mut_slice().shuffle(rng);
}

fn board_columns() -> (r: Vec<i32>)
    ensures
        r@ == columns(),
{
    let mut r: Vec<i32> = Vec::new();
    let mut x: i32 = X_LO;
    while x <= X_HI
        invariant
            X_LO <= x <= X_HI + 1,
            r@.len() == x - X_LO,
            forall|i: int| 0 <= i < r@.len() ==> r@[i] == X_LO + i,
        decreases X_HI + 1 - x,
    {
        r.push(x);
        x += 1;
    }
    assert(r@ =~= columns());
    r
}

/// Every placement of a rotation of `t` on the board, in a random sequence
/// of the kind the search uses: the rotations and the columns are each
/// shuffled once, the rows are not.
pub fn all_positions_random(t: &Shape, rng: &mut StdRng) -> (r: Vec<Shape>)
    requires
        t@.len() > 0,
        fits_span(t@),
    ensures
        exists|rots: Seq<Seq<Point>>, xs: Seq<i32>| #[trigger]
            is_search_order(rots, xs, t@) && views(r@) == placements(rots, xs),
{
    let mut rots = rotations(t);
    let ghost rots0 = rots@;
    shuffle(&mut rots, rng);
    let mut x_positions = board_columns();
    shuffle(&mut x_positions, rng);
    let r = positions_in_order(&rots, &x_positions);
    proof {
        lemma_views_multiset(rots@, rots0);
        assert(is_search_order(views(rots@), x_positions@, t@));
    }
    r
}

/// Sequences of vectors that hold the same vectors equally often hold the
/// same shapes equally often.
proof fn lemma_views_multiset(a: Seq<Shape>, b: Seq<Shape>)
    requires
        a.to_multiset() == b.to_multiset(),
    ensures
        views(a).to_multiset() == views(b).to_multiset(),
    decreases a.len(),
{
    broadcast use vstd::seq_lib::group_to_multiset_ensures;

    assert(a.len() == a.to_multiset().len() && b.len() == b.to_multiset().len());
    if a.len() == 0 {
        assert(views(a) =~= views(b));
    } else {
        let x = a.last();
        assert(a.contains(x)) by {
            assert(a[a.len() - 1] == x);
        }
        assert(b.to_multiset().count(x) > 0);
        assert(b.contains(x));
        let j = choose|j: int| 0 <= j < b.len() && b[j] == x;
        let a1 = a.drop_last();
        let b1 = b.remove(j);
        assert(a.remove(a.len() - 1) =~= a1);
        assert(a1.to_multiset() =~= a.to_multiset().remove(x));
        assert(b1.to_multiset() =~= b.to_multiset().remove(x));
        lemma_views_multiset(a1, b1);
        assert(views(a) =~= views(a1).push(x@));
        assert(views(b).remove(j) =~= views(b1));
        assert(views(b)[j] == x@);
        assert(views(b1).to_multiset() =~= views(b).to_multiset().remove(x@));
        assert(views(b).to_multiset().count(x@) > 0) by {
            assert(views(b).contains(x@));
        }
        assert(views(a).to_multiset() =~= views(a1).to_multiset().insert(x@));
        assert(views(b).to_multiset() =~= views(b1).to_multiset().insert(x@));
    }
}

/// Whether `c` is the `k`-th shape of `rots` translated by `(x, y)`, on
/// the board.
pub open spec fn places(rots: Seq<Seq<Point>>, k: int, x: int, y: int, c: Seq<Point>) -> bool {
    0 <= k < rots.len() && lands_on_board(rots[k], x, y) && c == placed(rots[k], x, y)
}

proof fn lemma_placements_at(rots: Seq<Seq<Point>>, x: int, y: int, k: int, c: Seq<Point>)
    requires
        0 <= k <= rots.len(),
    ensures
        placements_at(rots, x, y, k).contains(c) <==> exists|i: int| i < k && #[trigger] places(rots, i, x, y, c),
    decreases k,
{
    if k > 0 {
        lemma_placements_at(rots, x, y, k - 1, c);
        let before = placements_at(rots, x, y, k - 1);
        let list = placements_at(rots, x, y, k);
        if list.contains(c) {
            let m = choose|m: int| 0 <= m < list.len() && list[m] == c;
            if m < before.len() {
                assert(before[m] == c);
                let i = choose|i: int| i < k - 1 && #[trigger] places(rots, i, x, y, c);
                assert(i < k && places(rots, i, x, y, c));
            } else {
                assert(places(rots, k - 1, x, y, c));
            }
        }
        if exists|i: int| i < k && #[trigger] places(rots, i, x, y, c) {
            let i = choose|i: int| i < k && #[trigger] places(rots, i, x, y, c);
            if i < k - 1 {
                let m = choose|m: int| 0 <= m < before.len() && before[m] == c;
                assert(list[m] == c);
            } else {
                assert(list[before.len() as int] == c);
            }
        }
    }
}

proof fn lemma_concat_contains(a: Seq<Seq<Point>>, b: Seq<Seq<Point>>, c: Seq<Point>)
    ensures
        (a + b).contains(c) <==> a.contains(c) || b.contains(c),
{
    if (a + b).contains(c) {
        let m = choose|m: int| 0 <= m < (a + b).len() && (a + b)[m] == c;
        if m < a.len() {
            assert(a[m] == c);
        } else {
            assert(b[m - a.len()] == c);
        }
    }
    if a.contains(c) {
        let m = choose|m: int| 0 <= m < a.len() && a[m] == c;
        assert((a + b)[m] == c);
    }
    if b.contains(c) {
        let m = choose|m: int| 0 <= m < b.len() && b[m] == c;
        assert((a + b)[a.len() + m] == c);
    }
}

/// Whether `c` is the `k`-th shape of `rots` at the `j`-th column of `xs`
/// in row `y`, on the board.
pub open spec fn places_in(rots: Seq<Seq<Point>>, xs: Seq<i32>, k: int, j: int, y: int, c: Seq<Point>) -> bool {
    0 <= j < xs.len() && places(rots, k, xs[j] as int, y, c)
}

proof fn lemma_placements_in_row(rots: Seq<Seq<Point>>, xs: Seq<i32>, y: int, j: int, c: Seq<Point>)
    requires
        0 <= j <= xs.len(),
    ensures
        placements_in_row(rots, xs, y, j).contains(c) <==> exists|k: int, i: int|
            i < j && #[trigger] places_in(rots, xs, k, i, y, c),
    decreases j,
{
    if j > 0 {
        lemma_placements_in_row(rots, xs, y, j - 1, c);
        let before = placements_in_row(rots, xs, y, j - 1);
        let here = placements_at(rots, xs[j - 1] as int, y, rots.len() as int);
        lemma_placements_at(rots, xs[j - 1] as int, y, rots.len() as int, c);
        lemma_concat_contains(before, here, c);
        if before.contains(c) {
            let (k, i) = choose|k: int, i: int| i < j - 1 && #[trigger] places_in(rots, xs, k, i, y, c);
            assert(i < j && places_in(rots, xs, k, i, y, c));
        }
        if here.contains(c) {
            let k = choose|k: int| k < rots.len() && #[trigger] places(rots, k, xs[j - 1] as int, y, c);
            assert(places_in(rots, xs, k, j - 1, y, c));
        }
        if exists|k: int, i: int| i < j && #[trigger] places_in(rots, xs, k, i, y, c) {
            let (k, i) = choose|k: int, i: int| i < j && #[trigger] places_in(rots, xs, k, i, y, c);
            if i < j - 1 {
                assert(before.contains(c));
            } else {
                assert(places(rots, k, xs[j - 1] as int, y, c));
                assert(here.contains(c));
            }
        }
    }
}

/// Whether `c` is a shape of `rots` at a column of `xs` in a row of the
/// board, on the board.
pub open spec fn is_placement(rots: Seq<Seq<Point>>, xs: Seq<i32>, c: Seq<Point>) -> bool {
    exists|k: int, j: int, y: int| Y_LO <= y <= Y_HI && #[trigger] places_in(rots, xs, k, j, y, c)
}

proof fn lemma_placements_upto(rots: Seq<Seq<Point>>, xs: Seq<i32>, rows: int, c: Seq<Point>)
    requires
        0 <= rows,
    ensures
        placements_upto(rots, xs, rows).contains(c) <==> exists|k: int, j: int, y: int|
            Y_LO <= y < Y_LO + rows && #[trigger] places_in(rots, xs, k, j, y, c),
    decreases rows,
{
    if rows > 0 {
        lemma_placements_upto(rots, xs, rows - 1, c);
        let before = placements_upto(rots, xs, rows - 1);
        let y0 = Y_LO + rows - 1;
        let here = placements_in_row(rots, xs, y0, xs.len() as int);
        lemma_placements_in_row(rots, xs, y0, xs.len() as int, c);
        lemma_concat_contains(before, here, c);
        if before.contains(c) {
            let (k, j, y) = choose|k: int, j: int, y: int|
                Y_LO <= y < Y_LO + rows - 1 && #[trigger] places_in(rots, xs, k, j, y, c);
            assert(Y_LO <= y < Y_LO + rows && places_in(rots, xs, k, j, y, c));
        }
        if here.contains(c) {
            let (k, j) = choose|k: int, j: int| j < xs.len() && #[trigger] places_in(rots, xs, k, j, y0, c);
            assert(Y_LO <= y0 < Y_LO + rows && places_in(rots, xs, k, j, y0, c));
        }
        if exists|k: int, j: int, y: int| Y_LO <= y < Y_LO + rows && #[trigger] places_in(rots, xs, k, j, y, c) {
            let (k, j, y) = choose|k: int, j: int, y: int|
                Y_LO <= y < Y_LO + rows && #[trigger] places_in(rots, xs, k, j, y, c);
            if y < y0 {
                assert(before.contains(c));
            } else {
                assert(j < xs.len() && places_in(rots, xs, k, j, y0, c));
                assert(here.contains(c));
            }
        }
    }
}

/// The list of placements holds each shape of `rots` at each column of
/// `xs` in each row of the board, where it lies on the board, and nothing
/// else.
pub proof fn lemma_placements(rots: Seq<Seq<Point>>, xs: Seq<i32>, c: Seq<Point>)
    ensures
        placements(rots, xs).contains(c) <==> is_placement(rots, xs, c),
{
    lemma_placements_upto(rots, xs, Y_HI - Y_LO + 1, c);
    if placements(rots, xs).contains(c) {
        let (k, j, y) = choose|k: int, j: int, y: int|
            Y_LO <= y < Y_LO + (Y_HI - Y_LO + 1) && #[trigger] places_in(rots, xs, k, j, y, c);
        assert(Y_LO <= y <= Y_HI && places_in(rots, xs, k, j, y, c));
    }
    if is_placement(rots, xs, c) {
        let (k, j, y) = choose|k: int, j: int, y: int| Y_LO <= y <= Y_HI && #[trigger] places_in(rots, xs, k, j, y, c);
        assert(Y_LO <= y < Y_LO + (Y_HI - Y_LO + 1) && places_in(rots, xs, k, j, y, c));
    }
}

/// The first clear shape of a list is one of the list and clear; where
/// there is none, no shape of the list is clear.
pub proof fn lemma_first_clear(m: Map<Point, u8>, c: Seq<Seq<Point>>)
    ensures
        match first_clear(m, c) {
            Some(s) => c.contains(s) && all_clear(m, s),
            None => forall|i: int| 0 <= i < c.len() ==> !all_clear(m, #[trigger] c[i]),
        },
    decreases c.len(),
{
    if c.len() > 0 {
        if all_clear(m, c.first()) {
            assert(c[0] == c.first());
        } else {
            let rest = c.drop_first();
            lemma_first_clear(m, rest);
            match first_clear(m, rest) {
                Some(s) => {
                    let i = choose|i: int| 0 <= i < rest.len() && rest[i] == s;
                    assert(c[i + 1] == s);
                },
                None => {
                    assert forall|i: int| 0 <= i < c.len() implies !all_clear(m, #[trigger] c[i]) by {
                        if i > 0 {
                            assert(rest[i - 1] == c[i]);
                        }
                    }
                },
            }
        }
    }
}

/// Whatever the sequence in which the rotations and the columns are tried,
/// the search meets a clear placement exactly where a rotation of the shape
/// fits somewhere on the board.
pub proof fn lemma_search_complete(
    t: Seq<Point>,
    m: Map<Point, u8>,
    rots: Seq<Seq<Point>>,
    xs: Seq<i32>,
    c: Seq<Point>,
)
    requires
        is_search_order(rots, xs, t),
    ensures
        (placements(rots, xs).contains(c) && all_clear(m, c)) <==> legal_placement(t, m, c),
{
    broadcast use vstd::seq_lib::group_to_multiset_ensures;

    lemma_placements(rots, xs, c);
    if placements(rots, xs).contains(c) && all_clear(m, c) {
        let (k, j, y) = choose|k: int, j: int, y: int| Y_LO <= y <= Y_HI && #[trigger] places_in(rots, xs, k, j, y, c);
        assert(rots.contains(rots[k]));
        assert(rots.to_multiset().count(rots[k]) > 0);
        assert(rotations_of(t).contains(rots[k]));
        assert(xs.contains(xs[j]));
        assert(xs.to_multiset().count(xs[j]) > 0);
        assert(columns().contains(xs[j]));
        let n = choose|n: int| 0 <= n < columns().len() && columns()[n] == xs[j];
        assert(fits_at(t, m, rots[k], xs[j] as int, y));
    }
    if legal_placement(t, m, c) {
        let (r, x, y) = choose|r: Seq<Point>, x: int, y: int| #[trigger] fits_at(t, m, r, x, y) && c == placed(r, x, y);
        assert(rotations_of(t).to_multiset().count(r) > 0);
        assert(rots.contains(r));
        let k = choose|k: int| 0 <= k < rots.len() && rots[k] == r;
        assert(columns()[x - X_LO] == x);
        assert(columns().contains(x as i32));
        assert(columns().to_multiset().count(x as i32) > 0);
        assert(xs.contains(x as i32));
        let j = choose|j: int| 0 <= j < xs.len() && xs[j] == x as i32;
        assert(places_in(rots, xs, k, j, y, c));
    }
}

/// Looks for a place where a rotation of the shape `t` fits: lies on the
/// board and covers only empty cells of the grid. The rotations and the
/// columns are tried in a random sequence, the rows from the lowest up; the
/// first placement that fits is returned, and none only where none fits.
pub fn find_fit_random(t: &Shape, grid: &BoxGrid, rng: &mut StdRng) -> (r: Option<Shape>)
    requires
        t@.len() > 0,
        fits_span(t@),
        grid.wf(),
    ensures
        match r {
            Some(s) => legal_placement(t@, grid@, s@) && all_clear(grid@, s@) && within_board(s@),
            None => forall|c: Seq<Point>| !legal_placement(t@, grid@, c),
        },
        board_full(grid@) ==> r.is_none(),
        exists|rots: Seq<Seq<Point>>, xs: Seq<i32>| #[trigger]
            is_search_order(rots, xs, t@) && first_clear(grid@, placements(rots, xs)) == (match r {
                Some(s) => Some(s@),
                None => None,
            }),
{
    let candidates = all_positions_random(t, rng);
    let ghost list = views(candidates@);
    let r = first_fit(candidates, grid);
    proof {
        let (rots, xs) = choose|rots: Seq<Seq<Point>>, xs: Seq<i32>| #[trigger]
            is_search_order(rots, xs, t@) && list == placements(rots, xs);
        assert(is_search_order(rots, xs, t@) && first_clear(grid@, placements(rots, xs)) == (match r {
            Some(s) => Some(s@),
            None => None,
        }));
        lemma_first_clear(grid@, list);
        match &r {
            Some(s) => {
                lemma_search_complete(t@, grid@, rots, xs, s@);
                lemma_legal_placement(t@, grid@, s@);
            },
            None => {
                assert forall|c: Seq<Point>| !legal_placement(t@, grid@, c) by {
                    lemma_search_complete(t@, grid@, rots, xs, c);
                    if list.contains(c) {
                        let i = choose|i: int| 0 <= i < list.len() && list[i] == c;
                        assert(!all_clear(grid@, list[i]));
                    }
                }
            },
        }
    }
    r
}

/// A legal placement lies on the board, covers only empty cells, and has
/// as many cells as the shape: so a board without an empty cell has none.
pub proof fn lemma_legal_placement(t: Seq<Point>, m: Map<Point, u8>, c: Seq<Point>)
    requires
        t.len() > 0,
        fits_span(t),
        legal_placement(t, m, c),
    ensures
        within_board(c),
        all_clear(m, c),
        c.len() == t.len(),
        !board_full(m),
{
    let (r, x, y) = choose|r: Seq<Point>, x: int, y: int| #[trigger] fits_at(t, m, r, x, y) && c == placed(r, x, y);
    lemma_rotations(t);
    let i = choose|i: int| 0 <= i < rotations_of(t).len() && rotations_of(t)[i] == r;
    assert(r.len() == t.len());
    assert forall|n: int| 0 <= n < c.len() implies on_board(#[trigger] c[n]) by {
        assert(X_LO <= r[n].x + x <= X_HI);
    }
    assert(on_board(c[0]));
    assert(color_at(m, c[0]) == 0);
}

/// The placements on the board of the first `n` shapes of `rots`, shape by
/// shape; those of one shape row by row from the lowest, in each row from
/// the leftmost column to the rightmost.
pub open spec fn placements_by_shape(rots: Seq<Seq<Point>>, n: int) -> Seq<Seq<Point>>
    decreases n,
{
    if n <= 0 {
        Seq::empty()
    } else {
        placements_by_shape(rots, n - 1) + placements(seq![rots[n - 1]], columns())
    }
}

/// Every placement of a rotation of `t` on the board, rotation by rotation;
/// those of one rotation row by row from the lowest, in each row from the
/// leftmost column to the rightmost.
pub fn all_positions(t: &Shape) -> (r: Vec<Shape>)
    requires
        t@.len() > 0,
        fits_span(t@),
    ensures
        views(r@) == placements_by_shape(rotations_of(t@), rotations_of(t@).len() as int),
{
    let rots = rotations(t);
    let xs = board_columns();
    let mut result: Vec<Shape> = Vec::new();
    let mut n: usize = 0;
    assert(views(result@) =~= placements_by_shape(views(rots@), 0));
    while n < rots.len()
        invariant
            n <= rots@.len(),
            xs@ == columns(),
            views(result@) == placements_by_shape(views(rots@), n as int),
        decreases rots@.len() - n,
    {
        let mut single: Vec<Shape> = Vec::new();
        single.push(copy_shape(&rots[n]));
        assert(views(single@) =~= seq![views(rots@)[n as int]]);
        let mut part = positions_in_order(&single, &xs);
        let ghost before = views(result@);
        let ghost added = views(part@);
        result.append(&mut part);
        assert(views(result@) =~= before + added);
        n += 1;
    }
    result
}

} // verus!
