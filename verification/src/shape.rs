//! Shapes: sequences of cells, with translation, rotation and the normal
//! form in which two placements of one shape are told to be the same.

use vstd::prelude::*;
use crate::geometry::{lattice, point, precedes, Point};

verus! {

/// A shape: the cells that it covers, in sequence.
pub type Shape = Vec<Point>;

/// `v` is the least `x` among the points of `s`.
pub open spec fn is_least_x(s: Seq<Point>, v: int) -> bool {
    &&& exists|i: int| 0 <= i < s.len() && (#[trigger] s[i]).x == v
    &&& forall|i: int| 0 <= i < s.len() ==> v <= (#[trigger] s[i]).x
}

/// `v` is the least `y` among the points of `s`.
pub open spec fn is_least_y(s: Seq<Point>, v: int) -> bool {
    &&& exists|i: int| 0 <= i < s.len() && (#[trigger] s[i]).y == v
    &&& forall|i: int| 0 <= i < s.len() ==> v <= (#[trigger] s[i]).y
}

/// `v` is the greatest `y` among the points of `s`.
pub open spec fn is_greatest_y(s: Seq<Point>, v: int) -> bool {
    &&& exists|i: int| 0 <= i < s.len() && (#[trigger] s[i]).y == v
    &&& forall|i: int| 0 <= i < s.len() ==> v >= (#[trigger] s[i]).y
}

/// The least `x` of a shape that has a point.
pub open spec fn min_x(s: Seq<Point>) -> int {
    choose|v: int| is_least_x(s, v)
}

/// The least `y` of a shape that has a point.
pub open spec fn min_y(s: Seq<Point>) -> int {
    choose|v: int| is_least_y(s, v)
}

/// The greatest `y` of a shape that has a point.
pub open spec fn max_y(s: Seq<Point>) -> int {
    choose|v: int| is_greatest_y(s, v)
}

/// The differences between the coordinates of any two points of the shape
/// are representable, so that the shape can be moved to the origin.
pub open spec fn fits_span(s: Seq<Point>) -> bool {
    forall|i: int, j: int|
        0 <= i < s.len() && 0 <= j < s.len() ==> (#[trigger] s[i]).x - (#[trigger] s[j]).x <= i32::MAX
            && s[i].y - s[j].y <= i32::MAX
}

/// No point of the shape has a negative coordinate.
pub open spec fn in_quadrant(s: Seq<Point>) -> bool {
    forall|i: int| 0 <= i < s.len() ==> 0 <= (#[trigger] s[i]).x && 0 <= s[i].y
}

/// Every point of `s` translated by `(dx, dy)`.
pub open spec fn shifted(s: Seq<Point>, dx: int, dy: int) -> Seq<Point> {
    Seq::new(s.len(), |i: int| lattice(s[i].x + dx, s[i].y + dy))
}

/// Whether `s` can be translated by `(dx, dy)` within the representable
/// coordinates.
pub open spec fn can_shift(s: Seq<Point>, dx: int, dy: int) -> bool {
    forall|i: int|
        0 <= i < s.len() ==> i32::MIN <= (#[trigger] s[i]).x + dx <= i32::MAX && i32::MIN <= s[i].y + dy
            <= i32::MAX
}

/// Every point of `s` translated by `o`.
pub open spec fn moved(s: Seq<Point>, o: Point) -> Seq<Point> {
    shifted(s, o.x as int, o.y as int)
}

/// Every point of `s` turned by a quarter, `(x, y)` to `(-y, x)`, and the
/// whole moved so that its least coordinates are 0.
pub open spec fn turned(s: Seq<Point>) -> Seq<Point> {
    Seq::new(s.len(), |i: int| lattice(max_y(s) - s[i].y, s[i].x - min_x(s)))
}

/// Whether the points of `s` stand in their order.
pub open spec fn ordered(s: Seq<Point>) -> bool {
    forall|i: int, j: int| 0 <= i < j < s.len() ==> (#[trigger] s[i]).precedes(#[trigger] s[j])
}

/// The sequence `s`, which is in order, with `p` put in its place: behind
/// every point that precedes it.
pub open spec fn inserted(s: Seq<Point>, p: Point) -> Seq<Point>
    decreases s.len(),
{
    if s.len() == 0 {
        seq![p]
    } else if s.last().precedes(p) {
        s.push(p)
    } else {
        inserted(s.drop_last(), p).push(s.last())
    }
}

/// The points of `s` in their order.
pub open spec fn sorted(s: Seq<Point>) -> Seq<Point>
    decreases s.len(),
{
    if s.len() == 0 {
        s
    } else {
        inserted(sorted(s.drop_last()), s.last())
    }
}

/// The normal form of a shape: moved so that its least `x` and least `y`
/// are 0, its points in their order.
pub open spec fn normalized(s: Seq<Point>) -> Seq<Point> {
    sorted(shifted(s, -min_x(s), -min_y(s)))
}

/// The shape turned by a quarter, in normal form.
pub open spec fn rotated(s: Seq<Point>) -> Seq<Point> {
    sorted(turned(s))
}

/// The normal form of `s` after `k` quarter turns.
pub open spec fn nth_rotation(s: Seq<Point>, k: nat) -> Seq<Point>
    decreases k,
{
    if k == 0 {
        normalized(s)
    } else {
        rotated(nth_rotation(s, (k - 1) as nat))
    }
}

/// The distinct shapes among the first `k` rotations of `s`, each where it
/// first occurs.
pub open spec fn rotations_upto(s: Seq<Point>, k: nat) -> Seq<Seq<Point>>
    decreases k,
{
    if k == 0 {
        Seq::empty()
    } else {
        let before = rotations_upto(s, (k - 1) as nat);
        let r = nth_rotation(s, (k - 1) as nat);
        if before.contains(r) {
            before
        } else {
            before.push(r)
        }
    }
}

/// The rotations of `s`: its normal form after no, one, two and three
/// quarter turns, without the repetitions.
pub open spec fn rotations_of(s: Seq<Point>) -> Seq<Seq<Point>> {
    rotations_upto(s, 4)
}

/// The shapes that the vectors of `v` hold.
pub open spec fn views(v: Seq<Shape>) -> Seq<Seq<Point>> {
    Seq::new(v.len(), |i: int| v[i]@)
}

/// A shape that has a point has a least `x`, a least `y` and a greatest `y`.
pub proof fn lemma_extremes(s: Seq<Point>)
    requires
        s.len() > 0,
    ensures
        is_least_x(s, min_x(s)),
        is_least_y(s, min_y(s)),
        is_greatest_y(s, max_y(s)),
    decreases s.len(),
{
    if s.len() == 1 {
        assert(is_least_x(s, s[0].x as int));
        assert(is_least_y(s, s[0].y as int));
        assert(is_greatest_y(s, s[0].y as int));
    } else {
        let t = s.drop_last();
        let l = s.last();
        lemma_extremes(t);
        assert(forall|i: int| 0 <= i < t.len() ==> t[i] == s[i]);
        let ix = choose|i: int| 0 <= i < t.len() && (#[trigger] t[i]).x == min_x(t);
        let iy = choose|i: int| 0 <= i < t.len() && (#[trigger] t[i]).y == min_y(t);
        let iz = choose|i: int| 0 <= i < t.len() && (#[trigger] t[i]).y == max_y(t);
        assert(s[ix].x == min_x(t) && s[iy].y == min_y(t) && s[iz].y == max_y(t));
        let vx = if l.x < min_x(t) { l.x as int } else { min_x(t) };
        let vy = if l.y < min_y(t) { l.y as int } else { min_y(t) };
        let vz = if l.y > max_y(t) { l.y as int } else { max_y(t) };
        assert(s[s.len() - 1] == l);
        assert(is_least_x(s, vx));
        assert(is_least_y(s, vy));
        assert(is_greatest_y(s, vz));
    }
}

/// Putting a point into a sequence puts it at the place before which all
/// points precede it and from which on none does.
proof fn lemma_inserted_at(s: Seq<Point>, p: Point, at: int)
    requires
        0 <= at <= s.len(),
        forall|j: int| at <= j < s.len() ==> !(#[trigger] s[j]).precedes(p),
        at == 0 || s[at - 1].precedes(p),
    ensures
        inserted(s, p) == s.insert(at, p),
    decreases s.len(),
{
    if s.len() == 0 {
        assert(seq![p] =~= s.insert(at, p));
    } else if at == s.len() {
        assert(s.push(p) =~= s.insert(at, p));
    } else {
        let t = s.drop_last();
        assert(!s[s.len() - 1].precedes(p));
        assert(forall|j: int| 0 <= j < t.len() ==> t[j] == s[j]);
        lemma_inserted_at(t, p, at);
        assert(t.insert(at, p).push(s.last()) =~= s.insert(at, p));
    }
}

/// Putting a point into an ordered sequence keeps it ordered, adds one to
/// its length, and adds that point to what it holds and no other.
pub proof fn lemma_inserted(s: Seq<Point>, p: Point)
    requires
        ordered(s),
    ensures
        ordered(inserted(s, p)),
        inserted(s, p).len() == s.len() + 1,
        forall|q: Point|
            #![trigger inserted(s, p).contains(q)]
            #![trigger s.contains(q)]
            inserted(s, p).contains(q) <==> (s.contains(q) || q == p),
    decreases s.len(),
{
    let r = inserted(s, p);
    if s.len() == 0 {
        assert(r[0] == p);
    } else if s.last().precedes(p) {
        assert(forall|j: int| 0 <= j < s.len() ==> r[j] == s[j]);
        assert(r[s.len() as int] == p);
        assert forall|i: int, j: int| 0 <= i < j < r.len() implies (#[trigger] r[i]).precedes(#[trigger] r[j]) by {
            if j == s.len() && i < s.len() - 1 {
                assert(s[i].precedes(s[s.len() - 1]));
            }
        }
    } else {
        let t = s.drop_last();
        let l = s.last();
        assert(forall|j: int| 0 <= j < t.len() ==> t[j] == s[j]);
        lemma_inserted(t, p);
        let u = inserted(t, p);
        assert(forall|j: int| 0 <= j < u.len() ==> r[j] == u[j]);
        assert(r[u.len() as int] == l);
        assert forall|i: int, j: int| 0 <= i < j < r.len() implies (#[trigger] r[i]).precedes(#[trigger] r[j]) by {
            if j == u.len() {
                assert(u.contains(u[i]));
                if u[i] != p {
                    let m = choose|m: int| 0 <= m < t.len() && t[m] == u[i];
                    assert(s[m].precedes(s[s.len() - 1]));
                }
            }
        }
        assert forall|q: Point| r.contains(q) <==> (s.contains(q) || q == p) by {
            if r.contains(q) {
                let m = choose|m: int| 0 <= m < r.len() && r[m] == q;
                if m < u.len() {
                    assert(u.contains(q));
                    if q != p {
                        let n = choose|n: int| 0 <= n < t.len() && t[n] == q;
                        assert(s[n] == q);
                    }
                } else {
                    assert(s[s.len() - 1] == q);
                }
            }
            if s.contains(q) || q == p {
                let n = if q == p { 0 } else { choose|n: int| 0 <= n < s.len() && s[n] == q };
                if q != p && n == s.len() - 1 {
                    assert(r[u.len() as int] == q);
                } else {
                    if q != p {
                        assert(t[n] == q);
                    }
                    assert(u.contains(q));
                    let m = choose|m: int| 0 <= m < u.len() && u[m] == q;
                    assert(r[m] == q);
                }
            }
        }
    }
}

/// Sorting gives an ordered sequence of the same length that holds the
/// same points.
pub proof fn lemma_sorted(s: Seq<Point>)
    ensures
        ordered(sorted(s)),
        sorted(s).len() == s.len(),
        forall|q: Point|
            #![trigger sorted(s).contains(q)]
            #![trigger s.contains(q)]
            sorted(s).contains(q) <==> s.contains(q),
    decreases s.len(),
{
    if s.len() > 0 {
        let t = s.drop_last();
        lemma_sorted(t);
        lemma_inserted(sorted(t), s.last());
        assert(forall|j: int| 0 <= j < t.len() ==> t[j] == s[j]);
        assert forall|q: Point| sorted(s).contains(q) <==> s.contains(q) by {
            if s.contains(q) {
                let n = choose|n: int| 0 <= n < s.len() && s[n] == q;
                if n < t.len() {
                    assert(t[n] == q);
                }
            }
            if t.contains(q) {
                let n = choose|n: int| 0 <= n < t.len() && t[n] == q;
                assert(s[n] == q);
            }
            assert(s[s.len() - 1] == s.last());
        }
    }
}

/// Putting a point into a sequence adds that point once to what the
/// sequence holds, and changes nothing else of it.
pub proof fn lemma_inserted_multiset(s: Seq<Point>, p: Point)
    ensures
        inserted(s, p).to_multiset() == s.to_multiset().insert(p),
    decreases s.len(),
{
    broadcast use vstd::seq_lib::group_to_multiset_ensures;

    if s.len() == 0 {
        assert(seq![p] =~= s.push(p));
    } else if s.last().precedes(p) {
    } else {
        let t = s.drop_last();
        lemma_inserted_multiset(t, p);
        assert(t.push(s.last()) =~= s);
        assert(inserted(s, p).to_multiset() =~= t.to_multiset().insert(p).insert(s.last()));
        assert(s.to_multiset() =~= t.to_multiset().insert(s.last()));
        assert(t.to_multiset().insert(p).insert(s.last()) =~= t.to_multiset().insert(s.last()).insert(p));
    }
}

/// Sorting rearranges: the sorted sequence holds each point as often as
/// the sequence itself.
pub proof fn lemma_sorted_multiset(s: Seq<Point>)
    ensures
        sorted(s).to_multiset() == s.to_multiset(),
    decreases s.len(),
{
    broadcast use vstd::seq_lib::group_to_multiset_ensures;

    if s.len() > 0 {
        let t = s.drop_last();
        lemma_sorted_multiset(t);
        lemma_inserted_multiset(sorted(t), s.last());
        assert(t.push(s.last()) =~= s);
    }
}

/// Two ordered sequences that hold the same points equally often are the
/// same sequence.
pub proof fn lemma_ordered_unique(a: Seq<Point>, b: Seq<Point>)
    requires
        ordered(a),
        ordered(b),
        a.to_multiset() == b.to_multiset(),
    ensures
        a == b,
    decreases a.len(),
{
    broadcast use vstd::seq_lib::group_to_multiset_ensures;

    assert(a.len() == a.to_multiset().len() && b.len() == b.to_multiset().len());
    if a.len() == 0 {
        assert(a =~= b);
    } else {
        let x = a.last();
        let y = b.last();
        assert(a[a.len() - 1] == x && b[b.len() - 1] == y);
        assert(a.contains(x) && b.contains(y));
        assert(b.to_multiset().count(x) > 0 && a.to_multiset().count(y) > 0);
        assert(b.contains(x) && a.contains(y));
        let i = choose|i: int| 0 <= i < b.len() && b[i] == x;
        let j = choose|j: int| 0 <= j < a.len() && a[j] == y;
        assert(x.precedes(y)) by {
            if i < b.len() - 1 {
                assert(b[i].precedes(b[b.len() - 1]));
            }
        }
        assert(y.precedes(x)) by {
            if j < a.len() - 1 {
                assert(a[j].precedes(a[a.len() - 1]));
            }
        }
        assert(x == y);
        let a1 = a.drop_last();
        let b1 = b.drop_last();
        assert(a.remove(a.len() - 1) =~= a1);
        assert(b.remove(b.len() - 1) =~= b1);
        assert(a1.to_multiset() =~= a.to_multiset().remove(x));
        assert(b1.to_multiset() =~= b.to_multiset().remove(y));
        assert(forall|n: int| 0 <= n < a1.len() ==> a1[n] == a[n]);
        assert(forall|n: int| 0 <= n < b1.len() ==> b1[n] == b[n]);
        lemma_ordered_unique(a1, b1);
        assert(a =~= a1.push(x));
        assert(b =~= b1.push(y));
    }
}

/// What sorting gives is the one ordered rearrangement of the sequence.
pub proof fn lemma_sorted_is_the_ordered_rearrangement(s: Seq<Point>, r: Seq<Point>)
    requires
        ordered(r),
        r.to_multiset() == s.to_multiset(),
    ensures
        sorted(s) == r,
{
    lemma_sorted(s);
    lemma_sorted_multiset(s);
    lemma_ordered_unique(sorted(s), r);
}

/// Sorting leaves an ordered sequence as it is.
pub proof fn lemma_sorted_of_ordered(s: Seq<Point>)
    requires
        ordered(s),
    ensures
        sorted(s) == s,
    decreases s.len(),
{
    if s.len() > 0 {
        let t = s.drop_last();
        assert(forall|j: int| 0 <= j < t.len() ==> t[j] == s[j]);
        lemma_sorted_of_ordered(t);
        if t.len() > 0 {
            assert(t[t.len() - 1].precedes(s[s.len() - 1]));
            assert(t.push(s.last()) =~= s);
        } else {
            assert(seq![s.last()] =~= s);
        }
    }
}

/// The shape with the given cells, each a pair `(x, y)`.
pub fn shape_from_vec(v: &[(i32, i32)]) -> (r: Shape)
    ensures
        r@.len() == v@.len(),
        forall|i: int| 0 <= i < v@.len() ==> (#[trigger] r@[i]) == (Point { x: v@[i].0, y: v@[i].1 }),
{
    let mut r: Vec<Point> = Vec::new();
    let mut i: usize = 0;
    while i < v.len()
        invariant
            i <= v@.len(),
            r@.len() == i,
            forall|j: int| 0 <= j < i ==> (#[trigger] r@[j]) == (Point { x: v@[j].0, y: v@[j].1 }),
        decreases v@.len() - i,
    {
        r.push(point(v[i].0, v[i].1));
        i += 1;
    }
    r
}

/// Whether two shapes hold the same points in the same sequence.
pub fn same_shape(a: &Shape, b: &Shape) -> (r: bool)
    ensures
        r == (a@ == b@),
{
    if a.len() != b.len() {
        return false;
    }
    let mut i: usize = 0;
    while i < a.len()
        invariant
            i <= a@.len(),
            a@.len() == b@.len(),
            forall|j: int| 0 <= j < i ==> a@[j] == b@[j],
        decreases a@.len() - i,
    {
        if a[i] != b[i] {
            return false;
        }
        i += 1;
    }
    assert(a@ =~= b@);
    true
}

/// The shape translated by `offset`.
pub fn move_shape(shape: &Shape, offset: &Point) -> (r: Shape)
    requires
        can_shift(shape@, offset.x as int, offset.y as int),
    ensures
        r@ == moved(shape@, *offset),
{
    let mut r: Vec<Point> = Vec::new();
    let mut i: usize = 0;
    while i < shape.len()
        invariant
            i <= shape@.len(),
            can_shift(shape@, offset.x as int, offset.y as int),
            r@.len() == i,
            forall|j: int| 0 <= j < i ==> (#[trigger] r@[j]) == moved(shape@, *offset)[j],
        decreases shape@.len() - i,
    {
        r.push(crate::geometry::move_point(&shape[i], offset));
        i += 1;
    }
    assert(r@ =~= moved(shape@, *offset));
    r
}

fn extremes(shape: &Shape) -> (r: (i32, i32, i32))
    requires
        shape@.len() > 0,
    ensures
        r.0 == min_x(shape@),
        r.1 == min_y(shape@),
        r.2 == max_y(shape@),
        is_least_x(shape@, r.0 as int),
        is_least_y(shape@, r.1 as int),
        is_greatest_y(shape@, r.2 as int),
{
    let mut lo_x: i32 = shape[0].x;
    let mut lo_y: i32 = shape[0].y;
    let mut hi_y: i32 = shape[0].y;
    let mut i: usize = 1;
    assert(shape@.take(1)[0] == shape@[0]);
    while i < shape.len()
        invariant
            1 <= i <= shape@.len(),
            is_least_x(shape@.take(i as int), lo_x as int),
            is_least_y(shape@.take(i as int), lo_y as int),
            is_greatest_y(shape@.take(i as int), hi_y as int),
        decreases shape@.len() - i,
    {
        let p = shape[i];
        let ghost a = shape@.take(i as int);
        let ghost b = shape@.take(i + 1);
        proof {
            let ix = choose|j: int| 0 <= j < a.len() && (#[trigger] a[j]).x == lo_x;
            let iy = choose|j: int| 0 <= j < a.len() && (#[trigger] a[j]).y == lo_y;
            let iz = choose|j: int| 0 <= j < a.len() && (#[trigger] a[j]).y == hi_y;
            assert(b[ix].x == lo_x && b[iy].y == lo_y && b[iz].y == hi_y);
            assert(forall|j: int| 0 <= j < a.len() ==> a[j] == b[j]);
            assert(b[i as int] == p);
        }
        if p.x < lo_x {
            lo_x = p.x;
        }
        if p.y < lo_y {
            lo_y = p.y;
        }
        if p.y > hi_y {
            hi_y = p.y;
        }
        i += 1;
    }
    proof {
        assert(shape@.take(shape@.len() as int) =~= shape@);
        lemma_extremes(shape@);
    }
    (lo_x, lo_y, hi_y)
}

fn sort_points(v: &Vec<Point>) -> (r: Vec<Point>)
    ensures
        r@ == sorted(v@),
{
    let mut r: Vec<Point> = Vec::new();
    let mut i: usize = 0;
    while i < v.len()
        invariant
            i <= v@.len(),
            r@.len() == i,
            r@ == sorted(v@.take(i as int)),
        decreases v@.len() - i,
    {
        let p = v[i];
        let mut at: usize = r.len();
        while at > 0 && !precedes(&r[at - 1], &p)
            invariant
                at <= r@.len(),
                forall|j: int| at <= j < r@.len() ==> !(#[trigger] r@[j]).precedes(p),
            decreases at,
        {
            at -= 1;
        }
        proof {
            lemma_inserted_at(r@, p, at as int);
            assert(v@.take(i + 1).drop_last() =~= v@.take(i as int));
        }
        r.insert(at, p);
        i += 1;
    }
    assert(v@.take(v@.len() as int) =~= v@);
    r
}

/// Brings a shape into its normal form: moves it so that its least `x` and
/// least `y` are 0, and puts its points in their order.
pub fn normalize(shape: &Shape) -> (r: Shape)
    requires
        shape@.len() > 0,
        fits_span(shape@),
    ensures
        r@ == normalized(shape@),
        r@.len() == shape@.len(),
        in_quadrant(r@),
{
    let (lo_x, lo_y, _hi_y) = extremes(shape);
    let mut at_origin: Vec<Point> = Vec::new();
    let mut i: usize = 0;
    while i < shape.len()
        invariant
            i <= shape@.len(),
            fits_span(shape@),
            is_least_x(shape@, lo_x as int),
            is_least_y(shape@, lo_y as int),
            at_origin@.len() == i,
            forall|j: int| 0 <= j < i ==> (#[trigger] at_origin@[j]) == shifted(shape@, -lo_x, -lo_y)[j],
            in_quadrant(at_origin@),
        decreases shape@.len() - i,
    {
        let p = shape[i];
        let x: i64 = p.x as i64 - lo_x as i64;
        let y: i64 = p.y as i64 - lo_y as i64;
        at_origin.push(point(x as i32, y as i32));
        i += 1;
    }
    assert(at_origin@ =~= shifted(shape@, -lo_x, -lo_y));
    proof {
        lemma_sorted(at_origin@);
        lemma_quadrant_of_same_points(at_origin@, sorted(at_origin@));
    }
    sort_points(&at_origin)
}

/// A sequence whose points all occur in one without negative coordinates
/// has none either.
proof fn lemma_quadrant_of_same_points(a: Seq<Point>, b: Seq<Point>)
    requires
        in_quadrant(a),
        forall|q: Point| b.contains(q) ==> a.contains(q),
    ensures
        in_quadrant(b),
{
    assert forall|i: int| 0 <= i < b.len() implies 0 <= (#[trigger] b[i]).x && 0 <= b[i].y by {
        assert(b.contains(b[i]));
        let j = choose|j: int| 0 <= j < a.len() && a[j] == b[i];
        assert(0 <= a[j].x);
    }
}

/// Turns a shape by a quarter, `(x, y)` to `(-y, x)`, and brings the
/// result into normal form.
pub fn rotate_shape(shape: &Shape) -> (r: Shape)
    requires
        shape@.len() > 0,
        fits_span(shape@),
    ensures
        r@ == rotated(shape@),
        r@.len() == shape@.len(),
        in_quadrant(r@),
{
    let (lo_x, _lo_y, hi_y) = extremes(shape);
    let mut quarter: Vec<Point> = Vec::new();
    let mut i: usize = 0;
    while i < shape.len()
        invariant
            i <= shape@.len(),
            fits_span(shape@),
            is_least_x(shape@, lo_x as int),
            is_greatest_y(shape@, hi_y as int),
            lo_x == min_x(shape@),
            hi_y == max_y(shape@),
            quarter@.len() == i,
            forall|j: int| 0 <= j < i ==> (#[trigger] quarter@[j]) == turned(shape@)[j],
            in_quadrant(quarter@),
        decreases shape@.len() - i,
    {
        let p = shape[i];
        let x: i64 = hi_y as i64 - p.y as i64;
        let y: i64 = p.x as i64 - lo_x as i64;
        quarter.push(point(x as i32, y as i32));
        i += 1;
    }
    assert(quarter@ =~= turned(shape@));
    proof {
        lemma_sorted(quarter@);
        lemma_quadrant_of_same_points(quarter@, sorted(quarter@));
    }
    sort_points(&quarter)
}

/// What is least among the points of one sequence is least among those of
/// any sequence that holds the same points.
proof fn lemma_least_of_same_points(a: Seq<Point>, b: Seq<Point>, vx: int, vy: int)
    requires
        is_least_x(a, vx),
        is_least_y(a, vy),
        forall|q: Point| #![trigger a.contains(q)] #![trigger b.contains(q)] b.contains(q) <==> a.contains(q),
    ensures
        is_least_x(b, vx),
        is_least_y(b, vy),
{
    let ix = choose|i: int| 0 <= i < a.len() && (#[trigger] a[i]).x == vx;
    let iy = choose|i: int| 0 <= i < a.len() && (#[trigger] a[i]).y == vy;
    assert(a.contains(a[ix]) && a.contains(a[iy]));
    assert(b.contains(a[ix]) && b.contains(a[iy]));
    let jx = choose|j: int| 0 <= j < b.len() && b[j] == a[ix];
    let jy = choose|j: int| 0 <= j < b.len() && b[j] == a[iy];
    assert(b[jx].x == vx && b[jy].y == vy);
    assert forall|i: int| 0 <= i < b.len() implies vx <= (#[trigger] b[i]).x && vy <= b[i].y by {
        assert(b.contains(b[i]));
        let j = choose|j: int| 0 <= j < a.len() && a[j] == b[i];
        assert(vx <= a[j].x);
    }
}

/// An ordered shape whose least coordinates are 0 is its own normal form.
pub proof fn lemma_normal_form_fixed(t: Seq<Point>)
    requires
        ordered(t),
        is_least_x(t, 0),
        is_least_y(t, 0),
    ensures
        normalized(t) == t,
{
    assert(is_least_x(t, min_x(t)));
    assert(is_least_y(t, min_y(t)));
    assert(shifted(t, 0, 0) =~= t);
    lemma_sorted_of_ordered(t);
}

/// A normal form is ordered, and its least coordinates are 0.
pub proof fn lemma_normalized_is_normal(s: Seq<Point>)
    requires
        s.len() > 0,
        fits_span(s),
    ensures
        ordered(normalized(s)),
        is_least_x(normalized(s), 0),
        is_least_y(normalized(s), 0),
        normalized(s).len() == s.len(),
{
    lemma_extremes(s);
    let a = shifted(s, -min_x(s), -min_y(s));
    let ix = choose|i: int| 0 <= i < s.len() && (#[trigger] s[i]).x == min_x(s);
    let iy = choose|i: int| 0 <= i < s.len() && (#[trigger] s[i]).y == min_y(s);
    assert(a[ix].x == 0);
    assert(a[iy].y == 0);
    assert forall|i: int| 0 <= i < a.len() implies 0 <= (#[trigger] a[i]).x && 0 <= a[i].y by {
        assert(s[i].x - s[ix].x <= i32::MAX);
        assert(s[i].y - s[iy].y <= i32::MAX);
    }
    assert(is_least_x(a, 0));
    assert(is_least_y(a, 0));
    lemma_sorted(a);
    lemma_least_of_same_points(a, sorted(a), 0, 0);
}

/// A shape turned by a quarter and normalized is ordered, and its least
/// coordinates are 0.
pub proof fn lemma_rotated_is_normal(s: Seq<Point>)
    requires
        s.len() > 0,
        fits_span(s),
    ensures
        ordered(rotated(s)),
        is_least_x(rotated(s), 0),
        is_least_y(rotated(s), 0),
        rotated(s).len() == s.len(),
{
    lemma_extremes(s);
    let a = turned(s);
    let ix = choose|i: int| 0 <= i < s.len() && (#[trigger] s[i]).x == min_x(s);
    let iy = choose|i: int| 0 <= i < s.len() && (#[trigger] s[i]).y == max_y(s);
    assert(a[iy].x == 0);
    assert(a[ix].y == 0);
    assert forall|i: int| 0 <= i < a.len() implies 0 <= (#[trigger] a[i]).x && 0 <= a[i].y by {
        assert(s[i].x - s[ix].x <= i32::MAX);
        assert(s[iy].y - s[i].y <= i32::MAX);
    }
    assert(is_least_x(a, 0));
    assert(is_least_y(a, 0));
    lemma_sorted(a);
    lemma_least_of_same_points(a, sorted(a), 0, 0);
}

/// Normalizing twice gives what normalizing once gives.
pub proof fn lemma_normalize_idempotent(s: Seq<Point>)
    requires
        s.len() > 0,
        fits_span(s),
    ensures
        normalized(normalized(s)) == normalized(s),
{
    lemma_normalized_is_normal(s);
    lemma_normal_form_fixed(normalized(s));
}

/// The normal form of a shape does not depend on where the shape stands:
/// a translated shape has the normal form of the shape itself.
pub proof fn lemma_normalize_translation_invariant(s: Seq<Point>, o: Point)
    requires
        s.len() > 0,
        can_shift(s, o.x as int, o.y as int),
    ensures
        normalized(moved(s, o)) == normalized(s),
{
    lemma_extremes(s);
    let m = moved(s, o);
    let ix = choose|i: int| 0 <= i < s.len() && (#[trigger] s[i]).x == min_x(s);
    let iy = choose|i: int| 0 <= i < s.len() && (#[trigger] s[i]).y == min_y(s);
    assert(m[ix].x == min_x(s) + o.x);
    assert(m[iy].y == min_y(s) + o.y);
    assert forall|i: int| 0 <= i < m.len() implies min_x(s) + o.x <= (#[trigger] m[i]).x && min_y(s) + o.y <= m[i].y by {
        assert(min_x(s) <= s[i].x);
    }
    assert(is_least_x(m, min_x(s) + o.x));
    assert(is_least_y(m, min_y(s) + o.y));
    assert(is_least_x(m, min_x(m)));
    assert(is_least_y(m, min_y(m)));
    let a = shifted(m, -min_x(m), -min_y(m));
    let b = shifted(s, -min_x(s), -min_y(s));
    assert forall|i: int| 0 <= i < s.len() implies (#[trigger] a[i]) == b[i] by {
        assert(m[i].x == s[i].x + o.x);
        assert(m[i].y == s[i].y + o.y);
    }
    assert(a =~= b);
}

/// Whether `list` holds the shape `s`.
pub fn contains_shape(list: &Vec<Shape>, s: &Shape) -> (r: bool)
    ensures
        r == views(list@).contains(s@),
{
    let mut i: usize = 0;
    while i < list.len()
        invariant
            i <= list@.len(),
            forall|j: int| 0 <= j < i ==> (#[trigger] views(list@)[j]) != s@,
        decreases list@.len() - i,
    {
        if same_shape(&list[i], s) {
            assert(views(list@)[i as int] == s@);
            return true;
        }
        i += 1;
    }
    false
}

/// The rotations of a shape: its normal form after no, one, two and three
/// quarter turns, in this sequence, each shape only where it first occurs.
pub fn rotations(s: &Shape) -> (r: Vec<Shape>)
    requires
        s@.len() > 0,
        fits_span(s@),
    ensures
        views(r@) == rotations_of(s@),
{
    let mut cur = normalize(s);
    let mut result: Vec<Shape> = Vec::new();
    let mut k: usize = 0;
    assert(views(result@) =~= rotations_upto(s@, 0));
    while k < 4
        invariant
            k <= 4,
            cur@ == nth_rotation(s@, k as nat),
            cur@.len() > 0,
            in_quadrant(cur@),
            views(result@) == rotations_upto(s@, k as nat),
        decreases 4 - k,
    {
        let turned_once = rotate_shape(&cur);
        let next = normalize(&turned_once);
        proof {
            lemma_rotated_is_normal(cur@);
            lemma_normal_form_fixed(rotated(cur@));
        }
        let ghost before = views(result@);
        if !contains_shape(&result, &cur) {
            result.push(cur);
            assert(views(result@) =~= before.push(nth_rotation(s@, k as nat)));
        }
        cur = next;
        k += 1;
    }
    result
}

/// Every point of `s` turned by a quarter and then raised by `h`: `(x, y)`
/// to `(h - y, x)`.
pub open spec fn turned_within(s: Seq<Point>, h: int) -> Seq<Point> {
    Seq::new(s.len(), |i: int| lattice(h - s[i].y, s[i].x as int))
}

proof fn lemma_turned_within_multiset(a: Seq<Point>, b: Seq<Point>, h: int)
    requires
        a.to_multiset() == b.to_multiset(),
    ensures
        turned_within(a, h).to_multiset() == turned_within(b, h).to_multiset(),
    decreases a.len(),
{
    broadcast use vstd::seq_lib::group_to_multiset_ensures;

    assert(a.len() == a.to_multiset().len() && b.len() == b.to_multiset().len());
    let ta = turned_within(a, h);
    let tb = turned_within(b, h);
    if a.len() == 0 {
        assert(ta =~= tb);
    } else {
        let x = a.last();
        let tx = lattice(h - x.y, x.x as int);
        assert(a[a.len() - 1] == x);
        assert(a.contains(x));
        assert(b.to_multiset().count(x) > 0);
        assert(b.contains(x));
        let j = choose|j: int| 0 <= j < b.len() && b[j] == x;
        let a1 = a.drop_last();
        let b1 = b.remove(j);
        assert(a.remove(a.len() - 1) =~= a1);
        assert(a1.to_multiset() =~= a.to_multiset().remove(x));
        assert(b1.to_multiset() =~= b.to_multiset().remove(x));
        lemma_turned_within_multiset(a1, b1, h);
        assert(ta =~= turned_within(a1, h).push(tx));
        assert(tb.remove(j) =~= turned_within(b1, h));
        assert(tb[j] == tx);
        assert(turned_within(b1, h).to_multiset() =~= tb.to_multiset().remove(tx));
        assert(tb.to_multiset().count(tx) > 0) by {
            assert(tb.contains(tx));
        }
        assert(ta.to_multiset() =~= turned_within(a1, h).to_multiset().insert(tx));
        assert(tb.to_multiset() =~= turned_within(b1, h).to_multiset().insert(tx));
    }
}

proof fn lemma_rotated_multiset(s: Seq<Point>, base: Seq<Point>, h: int)
    requires
        is_least_x(s, 0),
        is_greatest_y(s, h),
        s.to_multiset() == base.to_multiset(),
    ensures
        rotated(s).to_multiset() == turned_within(base, h).to_multiset(),
{
    assert(is_least_x(s, min_x(s)));
    assert(is_greatest_y(s, max_y(s)));
    assert(turned(s) =~= turned_within(s, h));
    lemma_sorted_multiset(turned(s));
    lemma_turned_within_multiset(s, base, h);
}

proof fn lemma_greatest_y_of_rearranged(a: Seq<Point>, b: Seq<Point>, v: int)
    requires
        a.to_multiset() == b.to_multiset(),
        is_greatest_y(b, v),
    ensures
        is_greatest_y(a, v),
        max_y(a) == v,
{
    broadcast use vstd::seq_lib::group_to_multiset_ensures;

    let i = choose|i: int| 0 <= i < b.len() && (#[trigger] b[i]).y == v;
    assert(b.contains(b[i]));
    assert(a.to_multiset().count(b[i]) > 0);
    assert(a.contains(b[i]));
    let j = choose|j: int| 0 <= j < a.len() && a[j] == b[i];
    assert(a[j].y == v);
    assert forall|n: int| 0 <= n < a.len() implies v >= (#[trigger] a[n]).y by {
        assert(a.contains(a[n]));
        assert(b.to_multiset().count(a[n]) > 0);
        assert(b.contains(a[n]));
        let m = choose|m: int| 0 <= m < b.len() && b[m] == a[n];
        assert(v >= b[m].y);
    }
    assert(is_greatest_y(a, v));
    assert(is_greatest_y(a, max_y(a)));
}

/// Four quarter turns bring a shape in normal form back to itself.
pub proof fn lemma_four_turns(n: Seq<Point>)
    requires
        ordered(n),
        is_least_x(n, 0),
        is_least_y(n, 0),
    ensures
        rotated(rotated(rotated(rotated(n)))) == n,
{
    let n1 = rotated(n);
    let n2 = rotated(n1);
    let n3 = rotated(n2);
    let n4 = rotated(n3);
    assert(n.len() > 0);
    assert(fits_span(n));
    lemma_extremes(n);
    let h0 = max_y(n);
    let kx = choose|i: int| 0 <= i < n.len() && (#[trigger] n[i]).x == 0;
    let ky = choose|i: int| 0 <= i < n.len() && (#[trigger] n[i]).y == 0;

    let m1 = turned_within(n, h0);
    lemma_rotated_is_normal(n);
    lemma_rotated_multiset(n, n, h0);
    assert(m1.len() > 0);
    lemma_extremes(m1);
    let h1 = max_y(m1);
    lemma_greatest_y_of_rearranged(n1, m1, h1);
    assert forall|k: int| 0 <= k < n.len() implies (#[trigger] n[k]).x <= h1 && n[k].y <= h0 by {
        assert(m1[k].y == n[k].x);
    }
    let kw = choose|i: int| 0 <= i < m1.len() && (#[trigger] m1[i]).y == h1;
    assert(n[kw].x == h1);

    let m2 = turned_within(m1, h1);
    assert(fits_span(n1));
    lemma_rotated_is_normal(n1);
    lemma_rotated_multiset(n1, m1, h1);
    assert forall|k: int| 0 <= k < n.len() implies (#[trigger] m2[k]) == lattice(h1 - n[k].x, h0 - n[k].y) by {
        assert(m1[k] == lattice(h0 - n[k].y, n[k].x as int));
        assert(0 <= n[k].y <= h0);
    }
    assert(is_greatest_y(m2, h0)) by {
        assert(m2[ky].y == h0);
        assert forall|k: int| 0 <= k < m2.len() implies h0 >= (#[trigger] m2[k]).y by {
            assert(0 <= n[k].y <= h0);
        }
    }
    lemma_greatest_y_of_rearranged(n2, m2, h0);

    let m3 = turned_within(m2, h0);
    assert(fits_span(n2));
    lemma_rotated_is_normal(n2);
    lemma_rotated_multiset(n2, m2, h0);
    assert forall|k: int| 0 <= k < n.len() implies (#[trigger] m3[k]) == lattice(n[k].y as int, h1 - n[k].x) by {
        assert(m2[k] == lattice(h1 - n[k].x, h0 - n[k].y));
        assert(0 <= n[k].y <= h0 && 0 <= n[k].x <= h1);
    }
    assert(is_greatest_y(m3, h1)) by {
        assert(m3[kx].y == h1);
        assert forall|k: int| 0 <= k < m3.len() implies h1 >= (#[trigger] m3[k]).y by {
            assert(0 <= n[k].x <= h1);
        }
    }
    lemma_greatest_y_of_rearranged(n3, m3, h1);

    let m4 = turned_within(m3, h1);
    assert(fits_span(n3));
    lemma_rotated_is_normal(n3);
    lemma_rotated_multiset(n3, m3, h1);
    assert forall|k: int| 0 <= k < n.len() implies (#[trigger] m4[k]) == n[k] by {
        assert(m3[k] == lattice(n[k].y as int, h1 - n[k].x));
        assert(0 <= n[k].y <= h0 && 0 <= n[k].x <= h1);
    }
    assert(m4 =~= n);
    lemma_ordered_unique(n4, n);
}

/// Each rotation of a shape is in normal form and has as many points as
/// the shape.
pub proof fn lemma_nth_rotation_is_normal(s: Seq<Point>, k: nat)
    requires
        s.len() > 0,
        fits_span(s),
    ensures
        ordered(nth_rotation(s, k)),
        is_least_x(nth_rotation(s, k), 0),
        is_least_y(nth_rotation(s, k), 0),
        nth_rotation(s, k).len() == s.len(),
        fits_span(nth_rotation(s, k)),
    decreases k,
{
    if k == 0 {
        lemma_normalized_is_normal(s);
    } else {
        lemma_nth_rotation_is_normal(s, (k - 1) as nat);
        lemma_rotated_is_normal(nth_rotation(s, (k - 1) as nat));
    }
}

/// What the list of rotations holds is the shape after some number of
/// quarter turns, and the list holds nothing twice.
pub proof fn lemma_rotations_upto(s: Seq<Point>, k: nat)
    ensures
        rotations_upto(s, k).len() <= k,
        rotations_upto(s, k).no_duplicates(),
        forall|r: Seq<Point>| #[trigger]
            rotations_upto(s, k).contains(r) <==> exists|i: nat| i < k && r == #[trigger] nth_rotation(s, i),
    decreases k,
{
    let list = rotations_upto(s, k);
    if k > 0 {
        let before = rotations_upto(s, (k - 1) as nat);
        let last = nth_rotation(s, (k - 1) as nat);
        lemma_rotations_upto(s, (k - 1) as nat);
        assert forall|r: Seq<Point>| #[trigger]
            list.contains(r) <==> exists|i: nat| i < k && r == #[trigger] nth_rotation(s, i) by {
            if list.contains(r) {
                if before.contains(r) {
                    let i = choose|i: nat| i < k - 1 && r == #[trigger] nth_rotation(s, i);
                    assert(i < k && r == nth_rotation(s, i));
                } else {
                    let m = choose|m: int| 0 <= m < list.len() && list[m] == r;
                    if m < before.len() {
                        assert(before[m] == r);
                    }
                    assert(r == nth_rotation(s, (k - 1) as nat));
                }
            }
            if exists|i: nat| i < k && r == #[trigger] nth_rotation(s, i) {
                let i = choose|i: nat| i < k && r == #[trigger] nth_rotation(s, i);
                if i < k - 1 {
                    assert(before.contains(r));
                    let m = choose|m: int| 0 <= m < before.len() && before[m] == r;
                    assert(list[m] == r);
                } else if !before.contains(r) {
                    assert(list[before.len() as int] == r);
                }
            }
        }
    }
}

/// A shape has at least one and at most four rotations. The first is its
/// normal form, no two are the same, and each is in normal form with as
/// many points as the shape.
pub proof fn lemma_rotations(s: Seq<Point>)
    requires
        s.len() > 0,
        fits_span(s),
    ensures
        1 <= rotations_of(s).len() <= 4,
        rotations_of(s)[0] == normalized(s),
        rotations_of(s).no_duplicates(),
        forall|i: int|
            0 <= i < rotations_of(s).len() ==> {
                let r = #[trigger] rotations_of(s)[i];
                r.len() == s.len() && normalized(r) == r
            },
{
    lemma_rotations_upto(s, 4);
    reveal_with_fuel(rotations_upto, 5);
    assert(rotations_upto(s, 1) =~= seq![normalized(s)]);
    assert forall|i: int| 0 <= i < rotations_of(s).len() implies {
        let r = #[trigger] rotations_of(s)[i];
        r.len() == s.len() && normalized(r) == r
    } by {
        let r = rotations_of(s)[i];
        assert(rotations_of(s).contains(r));
        let k = choose|k: nat| k < 4 && r == #[trigger] nth_rotation(s, k);
        lemma_nth_rotation_is_normal(s, k);
        lemma_normal_form_fixed(r);
    }
}

/// The list of rotations of a shape: its normal form alone where a quarter
/// turn changes nothing, two shapes where a half turn changes nothing, else
/// four; and a quarter turn of the fourth gives the first again.
pub proof fn lemma_rotations_list(s: Seq<Point>)
    requires
        s.len() > 0,
        fits_span(s),
    ensures
        ({
            let r0 = normalized(s);
            let r1 = rotated(r0);
            let r2 = rotated(r1);
            let r3 = rotated(r2);
            &&& rotated(r3) == r0
            &&& rotations_of(s) == if r1 == r0 {
                seq![r0]
            } else if r2 == r0 {
                seq![r0, r1]
            } else {
                seq![r0, r1, r2, r3]
            }
        }),
{
    let r0 = nth_rotation(s, 0);
    let r1 = nth_rotation(s, 1);
    let r2 = nth_rotation(s, 2);
    let r3 = nth_rotation(s, 3);
    reveal_with_fuel(nth_rotation, 5);
    assert(r1 == rotated(r0) && r2 == rotated(r1) && r3 == rotated(r2));
    lemma_nth_rotation_is_normal(s, 0);
    lemma_four_turns(r0);
    assert(rotated(r3) == r0);
    let l1 = rotations_upto(s, 1);
    let l2 = rotations_upto(s, 2);
    let l3 = rotations_upto(s, 3);
    let l4 = rotations_upto(s, 4);
    reveal_with_fuel(rotations_upto, 5);
    assert(l1 =~= seq![r0]);
    assert(l1.contains(r1) <==> r1 == r0) by {
        assert(l1[0] == r0);
    }
    if r1 == r0 {
        assert(l2 == l1);
        assert(l3 == l1);
        assert(l4 == l1);
    } else {
        assert(l2 =~= seq![r0, r1]);
        assert(l2[0] == r0 && l2[1] == r1);
        assert(l2.contains(r2) <==> (r2 == r0 || r2 == r1));
        if r2 == r0 {
            assert(r3 == r1);
            assert(l3 == l2);
            assert(l4 == l2);
        } else {
            assert(r2 != r1);
            assert(l3 =~= seq![r0, r1, r2]);
            assert(l3[0] == r0 && l3[1] == r1 && l3[2] == r2);
            assert(l3.contains(r3) <==> (r3 == r0 || r3 == r1 || r3 == r2));
            assert(r3 != r0 && r3 != r1 && r3 != r2);
            assert(l4 =~= seq![r0, r1, r2, r3]);
        }
    }
}

/// A shape has one, two or four rotations, and one more quarter turn of
/// the last of them gives the first.
pub proof fn lemma_rotations_cycle(s: Seq<Point>)
    requires
        s.len() > 0,
        fits_span(s),
    ensures
        rotations_of(s).len() == 1 || rotations_of(s).len() == 2 || rotations_of(s).len() == 4,
        rotated(rotations_of(s).last()) == rotations_of(s)[0],
{
    lemma_rotations_list(s);
}

/// The quarter turn of a shape of four points whose least `x` is 0 and
/// whose greatest `y` is `h`: the four turned points, given in their order.
pub proof fn lemma_rotated_four(s: Seq<Point>, h: int, i0: int, i1: int, i2: int, i3: int)
    requires
        s.len() == 4,
        is_least_x(s, 0),
        is_greatest_y(s, h),
        0 <= i0 < 4 && 0 <= i1 < 4 && 0 <= i2 < 4 && 0 <= i3 < 4,
        i0 != i1 && i0 != i2 && i0 != i3 && i1 != i2 && i1 != i3 && i2 != i3,
        ordered(
            seq![
                turned_within(s, h)[i0],
                turned_within(s, h)[i1],
                turned_within(s, h)[i2],
                turned_within(s, h)[i3],
            ],
        ),
    ensures
        rotated(s) == seq![
            turned_within(s, h)[i0],
            turned_within(s, h)[i1],
            turned_within(s, h)[i2],
            turned_within(s, h)[i3],
        ],
{
    broadcast use vstd::seq_lib::group_to_multiset_ensures;

    broadcast use vstd::multiset::group_multiset_axioms;

    let q = turned_within(s, h);
    let r = seq![q[i0], q[i1], q[i2], q[i3]];
    let e = Seq::<Point>::empty();
    vstd::seq_lib::to_multiset_build(e, q[0]);
    vstd::seq_lib::to_multiset_build(e.push(q[0]), q[1]);
    vstd::seq_lib::to_multiset_build(e.push(q[0]).push(q[1]), q[2]);
    vstd::seq_lib::to_multiset_build(e.push(q[0]).push(q[1]).push(q[2]), q[3]);
    assert(q =~= e.push(q[0]).push(q[1]).push(q[2]).push(q[3]));
    vstd::seq_lib::to_multiset_build(e, q[i0]);
    vstd::seq_lib::to_multiset_build(e.push(q[i0]), q[i1]);
    vstd::seq_lib::to_multiset_build(e.push(q[i0]).push(q[i1]), q[i2]);
    vstd::seq_lib::to_multiset_build(e.push(q[i0]).push(q[i1]).push(q[i2]), q[i3]);
    assert(r =~= e.push(q[i0]).push(q[i1]).push(q[i2]).push(q[i3]));
    assert(r.to_multiset() =~= q.to_multiset());
    lemma_rotated_multiset(s, s, h);
    lemma_sorted(turned(s));
    lemma_ordered_unique(rotated(s), r);
}

/// A shape with the points of `s`.
pub(crate) fn copy_shape(s: &Shape) -> (r: Shape)
    ensures
        r@ == s@,
{
    let mut r: Vec<Point> = Vec::new();
    let mut i: usize = 0;
    while i < s.len()
        invariant
            i <= s@.len(),
            r@ == s@.take(i as int),
        decreases s@.len() - i,
    {
        r.push(s[i]);
        assert(s@.take(i + 1) =~= s@.take(i as int).push(s@[i as int]));
        i += 1;
    }
    assert(s@.take(s@.len() as int) =~= s@);
    r
}

} // verus!
