//! The seven tetrominoes and the table that tells which of them a shape is.

use vstd::prelude::*;
use crate::geometry::{lattice, Point};
use crate::shape::{
    can_shift, copy_shape, fits_span, is_greatest_y, is_least_x, lemma_normal_form_fixed,
    lemma_normalize_translation_invariant, lemma_rotated_four, lemma_rotations,
    lemma_rotations_list, moved, normalize, normalized, rotated, rotations, rotations_of,
    same_shape, shape_from_vec, turned_within, views, Shape,
};

verus! {

/// The shape of the four given cells.
pub open spec fn four(a: (int, int), b: (int, int), c: (int, int), d: (int, int)) -> Seq<Point> {
    seq![
        Point { x: a.0 as i32, y: a.1 as i32 },
        Point { x: b.0 as i32, y: b.1 as i32 },
        Point { x: c.0 as i32, y: c.1 as i32 },
        Point { x: d.0 as i32, y: d.1 as i32 },
    ]
}

/// The seven tetrominoes I, O, T, J, L, N and S, each in the rotation that
/// stands for it.
pub open spec fn prototypes() -> Seq<Seq<Point>> {
    seq![
        four((0, 0), (0, 1), (0, 2), (0, 3)),
        four((0, 0), (0, 1), (1, 0), (1, 1)),
        four((0, 0), (0, 1), (0, 2), (1, 1)),
        four((0, 0), (0, 1), (0, 2), (1, 0)),
        four((0, 0), (0, 1), (0, 2), (1, 2)),
        four((0, 0), (1, 0), (1, 1), (2, 1)),
        four((0, 0), (0, 1), (1, 1), (1, 2)),
    ]
}

/// Each of the seven tetrominoes has four cells, all close to the origin.
pub proof fn lemma_prototypes()
    ensures
        prototypes().len() == 7,
        forall|i: int| 0 <= i < 7 ==> (#[trigger] prototypes()[i]).len() == 4 && fits_span(prototypes()[i]),
{
    assert forall|i: int| 0 <= i < 7 implies (#[trigger] prototypes()[i]).len() == 4 && fits_span(prototypes()[i]) by {
        let p = prototypes()[i];
        assert(forall|j: int| 0 <= j < p.len() ==> 0 <= (#[trigger] p[j]).x <= 3 && 0 <= p[j].y <= 3);
    }
}

fn tetromino(a: (i32, i32), b: (i32, i32), c: (i32, i32), d: (i32, i32)) -> (r: Shape)
    ensures
        r@ == four((a.0 as int, a.1 as int), (b.0 as int, b.1 as int), (c.0 as int, c.1 as int), (d.0 as int, d.1 as int)),
{
    let cells = [a, b, c, d];
    let r = shape_from_vec(cells.as_slice());
    assert(r@ =~= four(
        (a.0 as int, a.1 as int),
        (b.0 as int, b.1 as int),
        (c.0 as int, c.1 as int),
        (d.0 as int, d.1 as int),
    ));
    r
}

/// The seven tetrominoes, in a fixed sequence.
pub fn tetrominoes() -> (r: Vec<Shape>)
    ensures
        views(r@) == prototypes(),
{
    let mut r: Vec<Shape> = Vec::new();
    r.push(tetromino((0, 0), (0, 1), (0, 2), (0, 3)));
    r.push(tetromino((0, 0), (0, 1), (1, 0), (1, 1)));
    r.push(tetromino((0, 0), (0, 1), (0, 2), (1, 1)));
    r.push(tetromino((0, 0), (0, 1), (0, 2), (1, 0)));
    r.push(tetromino((0, 0), (0, 1), (0, 2), (1, 2)));
    r.push(tetromino((0, 0), (1, 0), (1, 1), (2, 1)));
    r.push(tetromino((0, 0), (0, 1), (1, 1), (1, 2)));
    assert(views(r@) =~= prototypes());
    r
}

/// The order of shapes: by their first points where these differ, else by
/// what follows them; a shape that ends comes before one that goes on.
pub open spec fn shape_precedes(a: Seq<Point>, b: Seq<Point>) -> bool
    decreases a.len(),
{
    if a.len() == 0 {
        true
    } else if b.len() == 0 {
        false
    } else if a[0] == b[0] {
        shape_precedes(a.drop_first(), b.drop_first())
    } else {
        a[0].precedes(b[0])
    }
}

/// The least of the first `n` shapes of `list`; of equal ones the first.
pub open spec fn least_upto(list: Seq<Seq<Point>>, n: int) -> Seq<Point>
    decreases n,
{
    if n <= 1 {
        list[0]
    } else {
        let m = least_upto(list, n - 1);
        if shape_precedes(m, list[n - 1]) {
            m
        } else {
            list[n - 1]
        }
    }
}

/// The rotation that stands for all rotations of `t`: the least of them.
pub open spec fn canonical_rotation(t: Seq<Point>) -> Seq<Point> {
    least_upto(rotations_of(t), rotations_of(t).len() as int)
}

/// What the table gives for the shape `s`, going by the first `n`
/// tetrominoes: the canonical rotation of the last of them that has `s`
/// among its rotations.
pub open spec fn canonical_among(s: Seq<Point>, n: int) -> Option<Seq<Point>>
    decreases n,
{
    if n <= 0 {
        None
    } else if rotations_of(prototypes()[n - 1]).contains(s) {
        Some(canonical_rotation(prototypes()[n - 1]))
    } else {
        canonical_among(s, n - 1)
    }
}

/// The table of canonical shapes: it maps each rotation of each of the
/// seven tetrominoes to the canonical rotation of that tetromino.
pub open spec fn canonical_table() -> Map<Seq<Point>, Seq<Point>> {
    Map::new(|s: Seq<Point>| canonical_among(s, 7).is_some(), |s: Seq<Point>| canonical_among(s, 7).unwrap())
}

/// The canonical shape of `s`: what the table gives for its normal form.
pub open spec fn canonical_of(s: Seq<Point>) -> Option<Seq<Point>> {
    if canonical_table().contains_key(normalized(s)) {
        Some(canonical_table()[normalized(s)])
    } else {
        None
    }
}

/// The table knows a shape exactly where the shape is a rotation of one of
/// the seven tetrominoes, and then gives the canonical rotation of one of
/// them.
pub proof fn lemma_canonical_among(s: Seq<Point>, n: int)
    requires
        0 <= n <= 7,
    ensures
        canonical_among(s, n).is_some() <==> exists|i: int|
            0 <= i < n && rotations_of(#[trigger] prototypes()[i]).contains(s),
        canonical_among(s, n).is_some() ==> exists|i: int|
            0 <= i < n && rotations_of(#[trigger] prototypes()[i]).contains(s) && canonical_among(s, n) == Some(
                canonical_rotation(prototypes()[i]),
            ),
    decreases n,
{
    if n > 0 {
        lemma_canonical_among(s, n - 1);
        if rotations_of(prototypes()[n - 1]).contains(s) {
        } else if canonical_among(s, n - 1).is_some() {
            let i = choose|i: int|
                0 <= i < n - 1 && rotations_of(#[trigger] prototypes()[i]).contains(s) && canonical_among(s, n - 1)
                    == Some(canonical_rotation(prototypes()[i]));
            assert(0 <= i < n && rotations_of(prototypes()[i]).contains(s));
        }
    }
}

/// The rotations of each of the seven tetrominoes, written out: those of
/// the `i`-th tetromino at index `i`, the tetromino itself first.
pub open spec fn orbits() -> Seq<Seq<Seq<Point>>> {
    seq![
        seq![
            four((0, 0), (0, 1), (0, 2), (0, 3)),
            four((0, 0), (1, 0), (2, 0), (3, 0)),
        ],
        seq![
            four((0, 0), (0, 1), (1, 0), (1, 1)),
        ],
        seq![
            four((0, 0), (0, 1), (0, 2), (1, 1)),
            four((0, 0), (1, 0), (1, 1), (2, 0)),
            four((0, 1), (1, 0), (1, 1), (1, 2)),
            four((0, 1), (1, 0), (1, 1), (2, 1)),
        ],
        seq![
            four((0, 0), (0, 1), (0, 2), (1, 0)),
            four((0, 0), (1, 0), (2, 0), (2, 1)),
            four((0, 2), (1, 0), (1, 1), (1, 2)),
            four((0, 0), (0, 1), (1, 1), (2, 1)),
        ],
        seq![
            four((0, 0), (0, 1), (0, 2), (1, 2)),
            four((0, 0), (0, 1), (1, 0), (2, 0)),
            four((0, 0), (1, 0), (1, 1), (1, 2)),
            four((0, 1), (1, 1), (2, 0), (2, 1)),
        ],
        seq![
            four((0, 0), (1, 0), (1, 1), (2, 1)),
            four((0, 1), (0, 2), (1, 0), (1, 1)),
        ],
        seq![
            four((0, 0), (0, 1), (1, 1), (1, 2)),
            four((0, 1), (1, 0), (1, 1), (2, 0)),
        ],
    ]
}

proof fn lemma_shape_precedes_at(a: Seq<Point>, b: Seq<Point>, k: int)
    requires
        0 <= k < a.len(),
        k < b.len(),
        forall|i: int| 0 <= i < k ==> a[i] == b[i],
        a[k] != b[k],
        a[k].precedes(b[k]),
    ensures
        shape_precedes(a, b),
    decreases k,
{
    if k > 0 {
        let a1 = a.drop_first();
        let b1 = b.drop_first();
        assert(a[0] == b[0]);
        assert(forall|i: int| 0 <= i < k - 1 ==> a1[i] == a[i + 1] && b1[i] == b[i + 1]);
        assert(a1[k - 1] == a[k] && b1[k - 1] == b[k]);
        lemma_shape_precedes_at(a1, b1, k - 1);
    }
}

proof fn lemma_turn(s: Seq<Point>, r: Seq<Point>, h: int, i0: int, i1: int, i2: int, i3: int)
    requires
        s.len() == 4,
        r.len() == 4,
        0 <= s[0].x && 0 <= s[1].x && 0 <= s[2].x && 0 <= s[3].x,
        s[0].x == 0 || s[1].x == 0 || s[2].x == 0 || s[3].x == 0,
        0 <= s[0].y <= h && 0 <= s[1].y <= h && 0 <= s[2].y <= h && 0 <= s[3].y <= h,
        s[0].y == h || s[1].y == h || s[2].y == h || s[3].y == h,
        0 <= i0 < 4 && 0 <= i1 < 4 && 0 <= i2 < 4 && 0 <= i3 < 4,
        i0 != i1 && i0 != i2 && i0 != i3 && i1 != i2 && i1 != i3 && i2 != i3,
        r[0] == lattice(h - s[i0].y, s[i0].x as int),
        r[1] == lattice(h - s[i1].y, s[i1].x as int),
        r[2] == lattice(h - s[i2].y, s[i2].x as int),
        r[3] == lattice(h - s[i3].y, s[i3].x as int),
        r[0].precedes(r[1]) && r[1].precedes(r[2]) && r[2].precedes(r[3]),
    ensures
        rotated(s) == r,
{
    let q = turned_within(s, h);
    let t = seq![q[i0], q[i1], q[i2], q[i3]];
    assert(t =~= r);
    assert(is_least_x(s, 0));
    assert(is_greatest_y(s, h));
    lemma_rotated_four(s, h, i0, i1, i2, i3);
}

proof fn lemma_normal_four(s: Seq<Point>)
    requires
        s.len() == 4,
        s[0].x == 0 && s[0].y == 0,
        0 <= s[1].x && 0 <= s[2].x && 0 <= s[3].x,
        0 <= s[1].y && 0 <= s[2].y && 0 <= s[3].y,
        s[0].precedes(s[1]) && s[1].precedes(s[2]) && s[2].precedes(s[3]),
    ensures
        normalized(s) == s,
{
    lemma_normal_form_fixed(s);
}

proof fn lemma_orbit_i()
    ensures
        rotations_of(prototypes()[0]) == orbits()[0],
        canonical_rotation(prototypes()[0]) == prototypes()[0],
{
    let r0 = four((0, 0), (0, 1), (0, 2), (0, 3));
    let r1 = four((0, 0), (1, 0), (2, 0), (3, 0));
    assert(prototypes()[0] == r0);
    lemma_normal_four(r0);
    lemma_turn(r0, r1, 3, 3, 2, 1, 0);
    lemma_turn(r1, r0, 0, 0, 1, 2, 3);
    assert(r1[1] != r0[1]);
    lemma_prototypes();
    lemma_rotations_list(r0);
    let list = seq![r0, r1];
    assert(rotations_of(r0) == list);
    assert(orbits()[0] =~= list);
    lemma_shape_precedes_at(r0, r1, 1);
    reveal_with_fuel(least_upto, 5);
    assert(list[0] == r0);
    assert(list[1] == r1);
    assert(least_upto(list, 2) == r0);
}

proof fn lemma_orbit_o()
    ensures
        rotations_of(prototypes()[1]) == orbits()[1],
        canonical_rotation(prototypes()[1]) == prototypes()[1],
{
    let r0 = four((0, 0), (0, 1), (1, 0), (1, 1));
    assert(prototypes()[1] == r0);
    lemma_normal_four(r0);
    lemma_turn(r0, r0, 1, 1, 3, 0, 2);
    lemma_prototypes();
    lemma_rotations_list(r0);
    let list = seq![r0];
    assert(rotations_of(r0) == list);
    assert(orbits()[1] =~= list);
    reveal_with_fuel(least_upto, 5);
    assert(list[0] == r0);
    assert(least_upto(list, 1) == r0);
}

proof fn lemma_orbit_t()
    ensures
        rotations_of(prototypes()[2]) == orbits()[2],
        canonical_rotation(prototypes()[2]) == prototypes()[2],
{
    let r0 = four((0, 0), (0, 1), (0, 2), (1, 1));
    let r1 = four((0, 0), (1, 0), (1, 1), (2, 0));
    let r2 = four((0, 1), (1, 0), (1, 1), (1, 2));
    let r3 = four((0, 1), (1, 0), (1, 1), (2, 1));
    assert(prototypes()[2] == r0);
    lemma_normal_four(r0);
    lemma_turn(r0, r1, 2, 2, 1, 3, 0);
    lemma_turn(r1, r2, 1, 2, 0, 1, 3);
    lemma_turn(r2, r3, 2, 3, 0, 2, 1);
    assert(r1[1] != r0[1]);
    assert(r2[0] != r0[0]);
    lemma_prototypes();
    lemma_rotations_list(r0);
    let list = seq![r0, r1, r2, r3];
    assert(rotations_of(r0) == list);
    assert(orbits()[2] =~= list);
    lemma_shape_precedes_at(r0, r1, 1);
    lemma_shape_precedes_at(r0, r2, 0);
    lemma_shape_precedes_at(r0, r3, 0);
    reveal_with_fuel(least_upto, 5);
    assert(list[0] == r0);
    assert(list[1] == r1);
    assert(list[2] == r2);
    assert(list[3] == r3);
    assert(least_upto(list, 4) == r0);
}

proof fn lemma_orbit_j()
    ensures
        rotations_of(prototypes()[3]) == orbits()[3],
        canonical_rotation(prototypes()[3]) == prototypes()[3],
{
    let r0 = four((0, 0), (0, 1), (0, 2), (1, 0));
    let r1 = four((0, 0), (1, 0), (2, 0), (2, 1));
    let r2 = four((0, 2), (1, 0), (1, 1), (1, 2));
    let r3 = four((0, 0), (0, 1), (1, 1), (2, 1));
    assert(prototypes()[3] == r0);
    lemma_normal_four(r0);
    lemma_turn(r0, r1, 2, 2, 1, 0, 3);
    lemma_turn(r1, r2, 1, 3, 0, 1, 2);
    lemma_turn(r2, r3, 2, 0, 3, 2, 1);
    assert(r1[1] != r0[1]);
    assert(r2[0] != r0[0]);
    lemma_prototypes();
    lemma_rotations_list(r0);
    let list = seq![r0, r1, r2, r3];
    assert(rotations_of(r0) == list);
    assert(orbits()[3] =~= list);
    lemma_shape_precedes_at(r0, r1, 1);
    lemma_shape_precedes_at(r0, r2, 0);
    lemma_shape_precedes_at(r0, r3, 2);
    reveal_with_fuel(least_upto, 5);
    assert(list[0] == r0);
    assert(list[1] == r1);
    assert(list[2] == r2);
    assert(list[3] == r3);
    assert(least_upto(list, 4) == r0);
}

proof fn lemma_orbit_l()
    ensures
        rotations_of(prototypes()[4]) == orbits()[4],
        canonical_rotation(prototypes()[4]) == prototypes()[4],
{
    let r0 = four((0, 0), (0, 1), (0, 2), (1, 2));
    let r1 = four((0, 0), (0, 1), (1, 0), (2, 0));
    let r2 = four((0, 0), (1, 0), (1, 1), (1, 2));
    let r3 = four((0, 1), (1, 1), (2, 0), (2, 1));
    assert(prototypes()[4] == r0);
    lemma_normal_four(r0);
    lemma_turn(r0, r1, 2, 2, 3, 1, 0);
    lemma_turn(r1, r2, 1, 1, 0, 2, 3);
    lemma_turn(r2, r3, 2, 3, 2, 0, 1);
    assert(r1[2] != r0[2]);
    assert(r2[1] != r0[1]);
    lemma_prototypes();
    lemma_rotations_list(r0);
    let list = seq![r0, r1, r2, r3];
    assert(rotations_of(r0) == list);
    assert(orbits()[4] =~= list);
    lemma_shape_precedes_at(r0, r1, 2);
    lemma_shape_precedes_at(r0, r2, 1);
    lemma_shape_precedes_at(r0, r3, 0);
    reveal_with_fuel(least_upto, 5);
    assert(list[0] == r0);
    assert(list[1] == r1);
    assert(list[2] == r2);
    assert(list[3] == r3);
    assert(least_upto(list, 4) == r0);
}

proof fn lemma_orbit_n()
    ensures
        rotations_of(prototypes()[5]) == orbits()[5],
        canonical_rotation(prototypes()[5]) == prototypes()[5],
{
    let r0 = four((0, 0), (1, 0), (1, 1), (2, 1));
    let r1 = four((0, 1), (0, 2), (1, 0), (1, 1));
    assert(prototypes()[5] == r0);
    lemma_normal_four(r0);
    lemma_turn(r0, r1, 1, 2, 3, 0, 1);
    lemma_turn(r1, r0, 2, 1, 0, 3, 2);
    assert(r1[0] != r0[0]);
    lemma_prototypes();
    lemma_rotations_list(r0);
    let list = seq![r0, r1];
    assert(rotations_of(r0) == list);
    assert(orbits()[5] =~= list);
    lemma_shape_precedes_at(r0, r1, 0);
    reveal_with_fuel(least_upto, 5);
    assert(list[0] == r0);
    assert(list[1] == r1);
    assert(least_upto(list, 2) == r0);
}

proof fn lemma_orbit_s()
    ensures
        rotations_of(prototypes()[6]) == orbits()[6],
        canonical_rotation(prototypes()[6]) == prototypes()[6],
{
    let r0 = four((0, 0), (0, 1), (1, 1), (1, 2));
    let r1 = four((0, 1), (1, 0), (1, 1), (2, 0));
    assert(prototypes()[6] == r0);
    lemma_normal_four(r0);
    lemma_turn(r0, r1, 2, 3, 1, 2, 0);
    lemma_turn(r1, r0, 1, 0, 2, 1, 3);
    assert(r1[0] != r0[0]);
    lemma_prototypes();
    lemma_rotations_list(r0);
    let list = seq![r0, r1];
    assert(rotations_of(r0) == list);
    assert(orbits()[6] =~= list);
    lemma_shape_precedes_at(r0, r1, 0);
    reveal_with_fuel(least_upto, 5);
    assert(list[0] == r0);
    assert(list[1] == r1);
    assert(least_upto(list, 2) == r0);
}

/// What the rotations of each tetromino are, and that each tetromino is
/// its own canonical rotation: the least of its rotations.
pub proof fn lemma_orbits()
    ensures
        forall|i: int|
            0 <= i < 7 ==> rotations_of(#[trigger] prototypes()[i]) == orbits()[i] && canonical_rotation(
                prototypes()[i],
            ) == prototypes()[i],
{
    lemma_orbit_i();
    lemma_orbit_o();
    lemma_orbit_t();
    lemma_orbit_j();
    lemma_orbit_l();
    lemma_orbit_n();
    lemma_orbit_s();
}

spec fn differ(a: Seq<Point>, b: Seq<Point>) -> bool {
    a[0] != b[0] || a[1] != b[1] || a[2] != b[2] || a[3] != b[3]
}

proof fn lemma_not_among(list: Seq<Seq<Point>>, r: Seq<Point>)
    requires
        list.len() <= 4,
        list.len() > 0 ==> differ(list[0], r),
        list.len() > 1 ==> differ(list[1], r),
        list.len() > 2 ==> differ(list[2], r),
        list.len() > 3 ==> differ(list[3], r),
    ensures
        !list.contains(r),
{
}

proof fn lemma_family_i()
    ensures
        forall|m: int|
            0 <= m < orbits()[0].len() ==> canonical_among(#[trigger] orbits()[0][m], 7) == Some(prototypes()[0]),
{
    lemma_orbits();
    reveal_with_fuel(canonical_among, 8);
    assert(orbits()[0].len() == 2);
    assert(canonical_among(orbits()[0][0], 7) == Some(prototypes()[0])) by {
        let r = four((0, 0), (0, 1), (0, 2), (0, 3));
        assert(orbits()[0][0] == r);
        lemma_not_among(orbits()[6], r);
        lemma_not_among(orbits()[5], r);
        lemma_not_among(orbits()[4], r);
        lemma_not_among(orbits()[3], r);
        lemma_not_among(orbits()[2], r);
        lemma_not_among(orbits()[1], r);
        assert(orbits()[0].contains(r));
    }
    assert(canonical_among(orbits()[0][1], 7) == Some(prototypes()[0])) by {
        let r = four((0, 0), (1, 0), (2, 0), (3, 0));
        assert(orbits()[0][1] == r);
        lemma_not_among(orbits()[6], r);
        lemma_not_among(orbits()[5], r);
        lemma_not_among(orbits()[4], r);
        lemma_not_among(orbits()[3], r);
        lemma_not_among(orbits()[2], r);
        lemma_not_among(orbits()[1], r);
        assert(orbits()[0].contains(r));
    }
}

proof fn lemma_family_o()
    ensures
        forall|m: int|
            0 <= m < orbits()[1].len() ==> canonical_among(#[trigger] orbits()[1][m], 7) == Some(prototypes()[1]),
{
    lemma_orbits();
    reveal_with_fuel(canonical_among, 8);
    assert(orbits()[1].len() == 1);
    assert(canonical_among(orbits()[1][0], 7) == Some(prototypes()[1])) by {
        let r = four((0, 0), (0, 1), (1, 0), (1, 1));
        assert(orbits()[1][0] == r);
        lemma_not_among(orbits()[6], r);
        lemma_not_among(orbits()[5], r);
        lemma_not_among(orbits()[4], r);
        lemma_not_among(orbits()[3], r);
        lemma_not_among(orbits()[2], r);
        assert(orbits()[1].contains(r));
    }
}

proof fn lemma_family_t()
    ensures
        forall|m: int|
            0 <= m < orbits()[2].len() ==> canonical_among(#[trigger] orbits()[2][m], 7) == Some(prototypes()[2]),
{
    lemma_orbits();
    reveal_with_fuel(canonical_among, 8);
    assert(orbits()[2].len() == 4);
    assert(canonical_among(orbits()[2][0], 7) == Some(prototypes()[2])) by {
        let r = four((0, 0), (0, 1), (0, 2), (1, 1));
        assert(orbits()[2][0] == r);
        lemma_not_among(orbits()[6], r);
        lemma_not_among(orbits()[5], r);
        lemma_not_among(orbits()[4], r);
        lemma_not_among(orbits()[3], r);
        assert(orbits()[2].contains(r));
    }
    assert(canonical_among(orbits()[2][1], 7) == Some(prototypes()[2])) by {
        let r = four((0, 0), (1, 0), (1, 1), (2, 0));
        assert(orbits()[2][1] == r);
        lemma_not_among(orbits()[6], r);
        lemma_not_among(orbits()[5], r);
        lemma_not_among(orbits()[4], r);
        lemma_not_among(orbits()[3], r);
        assert(orbits()[2].contains(r));
    }
    assert(canonical_among(orbits()[2][2], 7) == Some(prototypes()[2])) by {
        let r = four((0, 1), (1, 0), (1, 1), (1, 2));
        assert(orbits()[2][2] == r);
        lemma_not_among(orbits()[6], r);
        lemma_not_among(orbits()[5], r);
        lemma_not_among(orbits()[4], r);
        lemma_not_among(orbits()[3], r);
        assert(orbits()[2].contains(r));
    }
    assert(canonical_among(orbits()[2][3], 7) == Some(prototypes()[2])) by {
        let r = four((0, 1), (1, 0), (1, 1), (2, 1));
        assert(orbits()[2][3] == r);
        lemma_not_among(orbits()[6], r);
        lemma_not_among(orbits()[5], r);
        lemma_not_among(orbits()[4], r);
        lemma_not_among(orbits()[3], r);
        assert(orbits()[2].contains(r));
    }
}

proof fn lemma_family_j()
    ensures
        forall|m: int|
            0 <= m < orbits()[3].len() ==> canonical_among(#[trigger] orbits()[3][m], 7) == Some(prototypes()[3]),
{
    lemma_orbits();
    reveal_with_fuel(canonical_among, 8);
    assert(orbits()[3].len() == 4);
    assert(canonical_among(orbits()[3][0], 7) == Some(prototypes()[3])) by {
        let r = four((0, 0), (0, 1), (0, 2), (1, 0));
        assert(orbits()[3][0] == r);
        lemma_not_among(orbits()[6], r);
        lemma_not_among(orbits()[5], r);
        lemma_not_among(orbits()[4], r);
        assert(orbits()[3].contains(r));
    }
    assert(canonical_among(orbits()[3][1], 7) == Some(prototypes()[3])) by {
        let r = four((0, 0), (1, 0), (2, 0), (2, 1));
        assert(orbits()[3][1] == r);
        lemma_not_among(orbits()[6], r);
        lemma_not_among(orbits()[5], r);
        lemma_not_among(orbits()[4], r);
        assert(orbits()[3].contains(r));
    }
    assert(canonical_among(orbits()[3][2], 7) == Some(prototypes()[3])) by {
        let r = four((0, 2), (1, 0), (1, 1), (1, 2));
        assert(orbits()[3][2] == r);
        lemma_not_among(orbits()[6], r);
        lemma_not_among(orbits()[5], r);
        lemma_not_among(orbits()[4], r);
        assert(orbits()[3].contains(r));
    }
    assert(canonical_among(orbits()[3][3], 7) == Some(prototypes()[3])) by {
        let r = four((0, 0), (0, 1), (1, 1), (2, 1));
        assert(orbits()[3][3] == r);
        lemma_not_among(orbits()[6], r);
        lemma_not_among(orbits()[5], r);
        lemma_not_among(orbits()[4], r);
        assert(orbits()[3].contains(r));
    }
}

proof fn lemma_family_l()
    ensures
        forall|m: int|
            0 <= m < orbits()[4].len() ==> canonical_among(#[trigger] orbits()[4][m], 7) == Some(prototypes()[4]),
{
    lemma_orbits();
    reveal_with_fuel(canonical_among, 8);
    assert(orbits()[4].len() == 4);
    assert(canonical_among(orbits()[4][0], 7) == Some(prototypes()[4])) by {
        let r = four((0, 0), (0, 1), (0, 2), (1, 2));
        assert(orbits()[4][0] == r);
        lemma_not_among(orbits()[6], r);
        lemma_not_among(orbits()[5], r);
        assert(orbits()[4].contains(r));
    }
    assert(canonical_among(orbits()[4][1], 7) == Some(prototypes()[4])) by {
        let r = four((0, 0), (0, 1), (1, 0), (2, 0));
        assert(orbits()[4][1] == r);
        lemma_not_among(orbits()[6], r);
        lemma_not_among(orbits()[5], r);
        assert(orbits()[4].contains(r));
    }
    assert(canonical_among(orbits()[4][2], 7) == Some(prototypes()[4])) by {
        let r = four((0, 0), (1, 0), (1, 1), (1, 2));
        assert(orbits()[4][2] == r);
        lemma_not_among(orbits()[6], r);
        lemma_not_among(orbits()[5], r);
        assert(orbits()[4].contains(r));
    }
    assert(canonical_among(orbits()[4][3], 7) == Some(prototypes()[4])) by {
        let r = four((0, 1), (1, 1), (2, 0), (2, 1));
        assert(orbits()[4][3] == r);
        lemma_not_among(orbits()[6], r);
        lemma_not_among(orbits()[5], r);
        assert(orbits()[4].contains(r));
    }
}

proof fn lemma_family_n()
    ensures
        forall|m: int|
            0 <= m < orbits()[5].len() ==> canonical_among(#[trigger] orbits()[5][m], 7) == Some(prototypes()[5]),
{
    lemma_orbits();
    reveal_with_fuel(canonical_among, 8);
    assert(orbits()[5].len() == 2);
    assert(canonical_among(orbits()[5][0], 7) == Some(prototypes()[5])) by {
        let r = four((0, 0), (1, 0), (1, 1), (2, 1));
        assert(orbits()[5][0] == r);
        lemma_not_among(orbits()[6], r);
        assert(orbits()[5].contains(r));
    }
    assert(canonical_among(orbits()[5][1], 7) == Some(prototypes()[5])) by {
        let r = four((0, 1), (0, 2), (1, 0), (1, 1));
        assert(orbits()[5][1] == r);
        lemma_not_among(orbits()[6], r);
        assert(orbits()[5].contains(r));
    }
}

proof fn lemma_family_s()
    ensures
        forall|m: int|
            0 <= m < orbits()[6].len() ==> canonical_among(#[trigger] orbits()[6][m], 7) == Some(prototypes()[6]),
{
    lemma_orbits();
    reveal_with_fuel(canonical_among, 8);
    assert(orbits()[6].len() == 2);
    assert(canonical_among(orbits()[6][0], 7) == Some(prototypes()[6])) by {
        let r = four((0, 0), (0, 1), (1, 1), (1, 2));
        assert(orbits()[6][0] == r);
        assert(orbits()[6].contains(r));
    }
    assert(canonical_among(orbits()[6][1], 7) == Some(prototypes()[6])) by {
        let r = four((0, 1), (1, 0), (1, 1), (2, 0));
        assert(orbits()[6][1] == r);
        assert(orbits()[6].contains(r));
    }
}

/// Every rotation of one of the seven tetrominoes has that tetromino as
/// its canonical shape, wherever it stands; so has the tetromino itself.
pub proof fn lemma_canonical_of_rotation(i: int, r: Seq<Point>, o: Point)
    requires
        0 <= i < 7,
        rotations_of(prototypes()[i]).contains(r),
        can_shift(r, o.x as int, o.y as int),
    ensures
        canonical_of(r) == Some(prototypes()[i]),
        canonical_of(moved(r, o)) == Some(prototypes()[i]),
        canonical_of(prototypes()[i]) == Some(prototypes()[i]),
        normalized(prototypes()[i]) == prototypes()[i],
{
    lemma_prototypes();
    lemma_orbits();
    lemma_rotations(prototypes()[i]);
    lemma_family_i();
    lemma_family_o();
    lemma_family_t();
    lemma_family_j();
    lemma_family_l();
    lemma_family_n();
    lemma_family_s();
    let list = rotations_of(prototypes()[i]);
    let m = choose|m: int| 0 <= m < list.len() && list[m] == r;
    assert(orbits()[i][m] == r);
    assert(normalized(r) == r);
    lemma_normalize_translation_invariant(r, o);
    assert(canonical_among(r, 7) == Some(prototypes()[i]));
    let p = prototypes()[i];
    assert(list[0] == normalized(p));
    assert(orbits()[i][0] == normalized(p));
    assert(normalized(list[0]) == list[0]);
    assert(canonical_among(normalized(p), 7) == Some(p));
    assert(normalized(p) == p);
}

/// Each of the seven tetrominoes is in normal form and is its own
/// canonical shape.
pub proof fn lemma_prototypes_are_canonical(i: int)
    requires
        0 <= i < 7,
    ensures
        normalized(prototypes()[i]) == prototypes()[i],
        canonical_table().contains_key(prototypes()[i]),
        canonical_table()[prototypes()[i]] == prototypes()[i],
{
    lemma_prototypes();
    lemma_rotations(prototypes()[i]);
    let r = rotations_of(prototypes()[i])[0];
    assert(rotations_of(prototypes()[i]).contains(r));
    lemma_canonical_of_rotation(i, r, Point { x: 0, y: 0 });
}

/// Whether the shape `a` comes before the shape `b`, or equals it.
pub fn shape_before(a: &Shape, b: &Shape) -> (r: bool)
    ensures
        r == shape_precedes(a@, b@),
{
    let mut i: usize = 0;
    assert(a@.skip(0) =~= a@ && b@.skip(0) =~= b@);
    while i < a.len() && i < b.len()
        invariant
            i <= a@.len(),
            i <= b@.len(),
            shape_precedes(a@, b@) == shape_precedes(a@.skip(i as int), b@.skip(i as int)),
        decreases a@.len() - i,
    {
        assert(a@.skip(i as int)[0] == a@[i as int] && b@.skip(i as int)[0] == b@[i as int]);
        assert(a@.skip(i as int).drop_first() =~= a@.skip(i + 1));
        assert(b@.skip(i as int).drop_first() =~= b@.skip(i + 1));
        if a[i] != b[i] {
            return crate::geometry::precedes(&a[i], &b[i]);
        }
        i += 1;
    }
    i == a.len()
}

fn least_shape(list: &Vec<Shape>) -> (r: usize)
    requires
        list@.len() > 0,
    ensures
        r < list@.len(),
        list@[r as int]@ == least_upto(views(list@), list@.len() as int),
{
    let mut best: usize = 0;
    let mut i: usize = 1;
    while i < list.len()
        invariant
            1 <= i <= list@.len(),
            best < i,
            list@[best as int]@ == least_upto(views(list@), i as int),
        decreases list@.len() - i,
    {
        assert(views(list@)[i as int] == list@[i as int]@);
        if !shape_before(&list[best], &list[i]) {
            best = i;
        }
        i += 1;
    }
    best
}

spec fn lookup_in(e: Seq<(Shape, Shape)>, s: Seq<Point>) -> Option<Seq<Point>>
    decreases e.len(),
{
    if e.len() == 0 {
        None
    } else if e.last().0@ == s {
        Some(e.last().1@)
    } else {
        lookup_in(e.drop_last(), s)
    }
}

/// A table from shapes to the shapes that stand for them. The view maps
/// each shape that has an entry to the shape entered for it last.
pub struct CanonicalMap {
    entries: Vec<(Shape, Shape)>,
}

impl View for CanonicalMap {
    type V = Map<Seq<Point>, Seq<Point>>;

    closed spec fn view(&self) -> Map<Seq<Point>, Seq<Point>> {
        Map::new(
            |s: Seq<Point>| lookup_in(self.entries@, s).is_some(),
            |s: Seq<Point>| lookup_in(self.entries@, s).unwrap(),
        )
    }
}

impl CanonicalMap {
    /// The shape that the table holds for `shape`, if it holds one.
    pub fn get(&self, shape: &Shape) -> (r: Option<&Shape>)
        ensures
            match r {
                Some(c) => self@.contains_key(shape@) && self@[shape@] == c@,
                None => !self@.contains_key(shape@),
            },
    {
        let mut i: usize = self.entries.len();
        assert(self.entries@.take(i as int) =~= self.entries@);
        while i > 0
            invariant
                i <= self.entries@.len(),
                lookup_in(self.entries@, shape@) == lookup_in(self.entries@.take(i as int), shape@),
            decreases i,
        {
            assert(self.entries@.take(i as int).last() == self.entries@[i - 1]);
            assert(self.entries@.take(i as int).drop_last() =~= self.entries@.take(i - 1));
            if same_shape(&self.entries[i - 1].0, shape) {
                return Some(&self.entries[i - 1].1);
            }
            i -= 1;
        }
        None
    }
}

/// Builds the table of canonical shapes: for each of the seven tetrominoes
/// it enters, under each of its rotations, the least of them, which is the
/// tetromino itself.
pub fn gen_canonical_map() -> (m: CanonicalMap)
    ensures
        m@ == canonical_table(),
        forall|i: int|
            0 <= i < 7 ==> m@.contains_key(#[trigger] prototypes()[i]) && m@[prototypes()[i]] == prototypes()[i],
{
    let protos = tetrominoes();
    let mut entries: Vec<(Shape, Shape)> = Vec::new();
    let mut n: usize = 0;
    proof {
        lemma_prototypes();
    }
    while n < protos.len()
        invariant
            n <= 7,
            protos@.len() == 7,
            views(protos@) == prototypes(),
            forall|s: Seq<Point>| #[trigger] lookup_in(entries@, s) == canonical_among(s, n as int),
        decreases 7 - n,
    {
        proof {
            lemma_prototypes();
            assert(views(protos@)[n as int] == prototypes()[n as int]);
            lemma_rotations(prototypes()[n as int]);
        }
        let rots = rotations(&protos[n]);
        let best = least_shape(&rots);
        let ghost canon = canonical_rotation(prototypes()[n as int]);
        let mut k: usize = 0;
        while k < rots.len()
            invariant
                k <= rots@.len(),
                n < 7,
                best < rots@.len(),
                rots@[best as int]@ == canon,
                forall|s: Seq<Point>| #[trigger]
                    lookup_in(entries@, s) == if views(rots@).take(k as int).contains(s) {
                        Some(canon)
                    } else {
                        canonical_among(s, n as int)
                    },
            decreases rots@.len() - k,
        {
            let ghost before = entries@;
            let ghost seen = views(rots@).take(k as int);
            let key = copy_shape(&rots[k]);
            let value = copy_shape(&rots[best]);
            entries.push((key, value));
            proof {
                let now = views(rots@).take(k + 1);
                assert(now =~= seen.push(rots@[k as int]@));
                assert(entries@.drop_last() =~= before);
                assert forall|s: Seq<Point>| #[trigger]
                    lookup_in(entries@, s) == if now.contains(s) {
                        Some(canon)
                    } else {
                        canonical_among(s, n as int)
                    } by {
                    assert(lookup_in(before, s) == if seen.contains(s) {
                        Some(canon)
                    } else {
                        canonical_among(s, n as int)
                    });
                    if seen.contains(s) {
                        let i = choose|i: int| 0 <= i < seen.len() && seen[i] == s;
                        assert(now[i] == s);
                    }
                    if now.contains(s) && s != rots@[k as int]@ {
                        let i = choose|i: int| 0 <= i < now.len() && now[i] == s;
                        assert(seen[i] == s);
                    }
                    assert(now[k as int] == rots@[k as int]@);
                }
            }
            k += 1;
        }
        assert(views(rots@).take(rots@.len() as int) =~= rotations_of(prototypes()[n as int]));
        n += 1;
    }
    let m = CanonicalMap { entries };
    assert(m@ =~= canonical_table());
    proof {
        assert forall|i: int| 0 <= i < 7 implies m@.contains_key(#[trigger] prototypes()[i]) && m@[prototypes()[i]]
            == prototypes()[i] by {
            lemma_prototypes_are_canonical(i);
        }
    }
    m
}

/// The canonical shape of `shape`: the shape that stands for all rotations
/// of the tetromino that `shape` is a placement of; none where `shape` is
/// no placement of a tetromino.
pub fn canonicalize(shape: &Shape) -> (r: Option<Shape>)
    requires
        shape@.len() > 0,
        fits_span(shape@),
    ensures
        match r {
            Some(c) => canonical_of(shape@) == Some(c@),
            None => canonical_of(shape@).is_none(),
        },
{
    let table = gen_canonical_map();
    let normal = normalize(shape);
    match table.get(&normal) {
        Some(c) => Some(copy_shape(c)),
        None => None,
    }
}

} // verus!
