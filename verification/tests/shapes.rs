use tetromino_console::{
    canonicalize, contains_shape, gen_canonical_map, move_shape, normalize, point, rotate_shape, rotations,
    same_shape, shape_before, shape_from_vec, tetrominoes, Point, Shape,
};

#[test]
fn test_canonicalize() {
    for t in tetrominoes().iter() {
        // The stated tetrominoes are already canonical.
        let canonical = canonicalize(t);
        assert_eq!(Some(t.clone()), canonical);
    }
}

#[test]
fn shape_from_vec_keeps_the_sequence() {
    let s = shape_from_vec(&[(3, -1), (0, 2)]);
    assert_eq!(s, vec![Point { x: 3, y: -1 }, Point { x: 0, y: 2 }]);
    assert_eq!(shape_from_vec(&[]), Vec::<Point>::new());
}

#[test]
fn move_shape_translates_every_point() {
    let s = shape_from_vec(&[(0, 0), (1, 0), (1, 1)]);
    let m = move_shape(&s, &point(4, -2));
    assert_eq!(m, shape_from_vec(&[(4, -2), (5, -2), (5, -1)]));
}

#[test]
fn normalize_moves_to_origin_and_sorts() {
    let s = shape_from_vec(&[(5, 7), (4, 7), (5, 6)]);
    assert_eq!(normalize(&s), shape_from_vec(&[(0, 1), (1, 0), (1, 1)]));
}

#[test]
fn normalize_handles_far_corners() {
    let s = shape_from_vec(&[(i32::MIN, i32::MAX), (i32::MIN + 1, i32::MAX - 1)]);
    assert_eq!(normalize(&s), shape_from_vec(&[(0, 1), (1, 0)]));
}

#[test]
fn normalize_is_idempotent() {
    let shapes = [
        shape_from_vec(&[(5, 7), (4, 7), (5, 6)]),
        shape_from_vec(&[(-3, -3)]),
        shape_from_vec(&[(2, 2), (2, 2), (1, 9)]),
    ];
    for s in shapes.iter() {
        let once = normalize(s);
        assert_eq!(normalize(&once), once);
    }
}

#[test]
fn normalize_ignores_translation() {
    let s = shape_from_vec(&[(0, 0), (1, 0), (1, 1), (2, 1)]);
    let offsets = [point(0, 0), point(7, -3), point(-100, 250), point(1, 1)];
    for o in offsets.iter() {
        assert_eq!(normalize(&move_shape(&s, o)), normalize(&s));
    }
}

#[test]
fn rotate_shape_turns_by_a_quarter() {
    let i = shape_from_vec(&[(0, 0), (0, 1), (0, 2), (0, 3)]);
    assert_eq!(rotate_shape(&i), shape_from_vec(&[(0, 0), (1, 0), (2, 0), (3, 0)]));
    let l = shape_from_vec(&[(0, 0), (0, 1), (0, 2), (1, 2)]);
    assert_eq!(rotate_shape(&l), shape_from_vec(&[(0, 0), (0, 1), (1, 0), (2, 0)]));
}

#[test]
fn rotations_of_the_tetrominoes_have_the_expected_lengths() {
    let lengths: Vec<usize> = tetrominoes().iter().map(|t| rotations(t).len()).collect();
    assert_eq!(lengths, vec![2, 1, 4, 4, 4, 2, 2]);
}

#[test]
fn rotations_start_with_the_normal_form_and_cycle() {
    for t in tetrominoes().iter() {
        let rots = rotations(t);
        assert!(rots.len() == 1 || rots.len() == 2 || rots.len() == 4);
        assert_eq!(rots[0], normalize(t));
        let last = rots.last().unwrap();
        assert_eq!(rotate_shape(last), rots[0]);
        for (i, a) in rots.iter().enumerate() {
            for b in rots.iter().skip(i + 1) {
                assert_ne!(a, b);
            }
        }
    }
}

#[test]
fn rotations_come_in_turning_order() {
    let t = shape_from_vec(&[(0, 0), (0, 1), (0, 2), (1, 1)]);
    let rots = rotations(&t);
    assert_eq!(rots.len(), 4);
    assert_eq!(rots[0], shape_from_vec(&[(0, 0), (0, 1), (0, 2), (1, 1)]));
    assert_eq!(rots[1], shape_from_vec(&[(0, 0), (1, 0), (1, 1), (2, 0)]));
    assert_eq!(rots[2], shape_from_vec(&[(0, 1), (1, 0), (1, 1), (1, 2)]));
    assert_eq!(rots[3], shape_from_vec(&[(0, 1), (1, 0), (1, 1), (2, 1)]));
}

#[test]
fn every_rotation_has_the_canonical_shape_of_its_tetromino() {
    for t in tetrominoes().iter() {
        let expected = canonicalize(t);
        assert_eq!(expected, Some(t.clone()));
        for r in rotations(t).iter() {
            assert_eq!(canonicalize(r), expected);
            let elsewhere = move_shape(r, &point(12, -5));
            assert_eq!(canonicalize(&elsewhere), expected);
        }
    }
}

#[test]
fn canonicalize_knows_no_other_shape() {
    assert_eq!(canonicalize(&shape_from_vec(&[(0, 0)])), None);
    assert_eq!(canonicalize(&shape_from_vec(&[(0, 0), (0, 1), (0, 2), (0, 4)])), None);
    assert_eq!(canonicalize(&shape_from_vec(&[(0, 0), (1, 1), (2, 2), (3, 3)])), None);
}

#[test]
fn canonical_map_holds_every_rotation() {
    let map = gen_canonical_map();
    let mut count = 0;
    for t in tetrominoes().iter() {
        for r in rotations(t).iter() {
            assert_eq!(map.get(r), Some(t));
            count += 1;
        }
    }
    assert_eq!(count, 19);
    assert_eq!(map.get(&shape_from_vec(&[(0, 0), (5, 5)])), None);
}

#[test]
fn shapes_are_ordered_point_by_point() {
    let a: Shape = shape_from_vec(&[(0, 0), (0, 1)]);
    let b: Shape = shape_from_vec(&[(0, 0), (1, 0)]);
    let c: Shape = shape_from_vec(&[(0, 0)]);
    assert!(shape_before(&a, &b));
    assert!(!shape_before(&b, &a));
    assert!(shape_before(&a, &a));
    assert!(shape_before(&c, &a));
    assert!(!shape_before(&a, &c));
    assert_eq!(shape_before(&a, &b), a <= b);
    assert_eq!(shape_before(&b, &a), b <= a);
    assert_eq!(shape_before(&c, &a), c <= a);
}

#[test]
fn same_shape_compares_the_sequences() {
    let a = shape_from_vec(&[(0, 0), (0, 1)]);
    let b = shape_from_vec(&[(0, 1), (0, 0)]);
    assert!(same_shape(&a, &a.clone()));
    assert!(!same_shape(&a, &b));
    assert!(!same_shape(&a, &shape_from_vec(&[(0, 0)])));
    let list = vec![b.clone(), a.clone()];
    assert!(contains_shape(&list, &a));
    assert!(!contains_shape(&list, &shape_from_vec(&[(9, 9)])));
}
