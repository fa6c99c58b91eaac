use rand::rngs::StdRng;
use rand::SeedableRng;
use tetromino_console::{
    all_positions, all_positions_random, find_fit_random, first_fit, in_bounds, point, positions_in_order, rotations,
    shape_from_vec, tetrominoes, BoxGrid, Shape, X_HI, X_LO, Y_HI, Y_LO,
};

fn full_board() -> BoxGrid {
    let mut grid = BoxGrid::new();
    for x in X_LO..=X_HI {
        for y in Y_LO..=Y_HI {
            grid.set(&point(x, y), 200);
        }
    }
    grid
}

fn sorted(mut shapes: Vec<Shape>) -> Vec<Shape> {
    shapes.sort();
    shapes
}

#[test]
fn the_board_is_ten_by_twenty() {
    assert_eq!((X_LO, X_HI, Y_LO, Y_HI), (0, 9, 0, 19));
}

#[test]
fn in_bounds_checks_every_cell() {
    assert!(in_bounds(&shape_from_vec(&[(0, 0), (9, 19), (4, 7)])));
    assert!(!in_bounds(&shape_from_vec(&[(0, 0), (10, 0)])));
    assert!(!in_bounds(&shape_from_vec(&[(0, 20)])));
    assert!(!in_bounds(&shape_from_vec(&[(-1, 0)])));
    assert!(!in_bounds(&shape_from_vec(&[(0, -1)])));
    assert!(in_bounds(&Vec::new()));
}

#[test]
fn positions_in_order_goes_by_row_then_column_then_shape() {
    let a = shape_from_vec(&[(0, 0)]);
    let b = shape_from_vec(&[(0, 0), (1, 0)]);
    let all = positions_in_order(&vec![a, b], &vec![9, 3]);
    assert_eq!(all.len(), 20 * 3);
    assert_eq!(all[0], shape_from_vec(&[(9, 0)]));
    assert_eq!(all[1], shape_from_vec(&[(3, 0)]));
    assert_eq!(all[2], shape_from_vec(&[(3, 0), (4, 0)]));
    assert_eq!(all[3], shape_from_vec(&[(9, 1)]));
    assert_eq!(all[59], shape_from_vec(&[(3, 19), (4, 19)]));
}

#[test]
fn positions_in_order_skips_what_cannot_be_moved() {
    let far = shape_from_vec(&[(i32::MAX, 0)]);
    let near = shape_from_vec(&[(-1, -1)]);
    let all = positions_in_order(&vec![far, near], &vec![1]);
    assert_eq!(all.len(), 19);
    assert_eq!(all[0], shape_from_vec(&[(0, 0)]));
}

#[test]
fn all_positions_counts() {
    let ts = tetrominoes();
    assert_eq!(all_positions(&ts[0]).len(), 10 * 17 + 7 * 20);
    assert_eq!(all_positions(&ts[1]).len(), 9 * 19);
    let i = all_positions(&ts[0]);
    assert_eq!(i[0], shape_from_vec(&[(0, 0), (0, 1), (0, 2), (0, 3)]));
    assert_eq!(i[1], shape_from_vec(&[(1, 0), (1, 1), (1, 2), (1, 3)]));
    assert_eq!(i[10], shape_from_vec(&[(0, 1), (0, 2), (0, 3), (0, 4)]));
    assert_eq!(i[170], shape_from_vec(&[(0, 0), (1, 0), (2, 0), (3, 0)]));
    assert!(i.iter().all(|s| in_bounds(s)));
}

#[test]
fn random_positions_are_the_same_placements_in_another_sequence() {
    let mut different = false;
    for t in tetrominoes().iter() {
        let plain = all_positions(t);
        for seed in 0..8 {
            let mut rng = StdRng::seed_from_u64(seed);
            let random = all_positions_random(t, &mut rng);
            if random != plain {
                different = true;
            }
            assert_eq!(sorted(random), sorted(plain.clone()));
        }
    }
    assert!(different);
}

#[test]
fn random_positions_shuffle_the_columns() {
    let t = shape_from_vec(&[(0, 0)]);
    let mut first_columns = Vec::new();
    for seed in 0..20 {
        let mut rng = StdRng::seed_from_u64(seed);
        let all = all_positions_random(&t, &mut rng);
        assert_eq!(all.len(), 200);
        let row: Vec<i32> = all[..10].iter().map(|s| s[0].x).collect();
        assert!(all[..10].iter().all(|s| s[0].y == 0));
        let mut columns = row.clone();
        columns.sort();
        assert_eq!(columns, (0..10).collect::<Vec<i32>>());
        for (i, s) in all.iter().enumerate() {
            assert_eq!(s[0].x, row[i % 10]);
            assert_eq!(s[0].y, (i / 10) as i32);
        }
        first_columns.push(row[0]);
    }
    assert!(first_columns.iter().any(|x| *x != 0));
}

#[test]
fn first_fit_takes_the_first_clear_candidate() {
    let mut grid = BoxGrid::new();
    grid.set(&point(0, 0), 1);
    let a = shape_from_vec(&[(0, 0), (1, 0)]);
    let b = shape_from_vec(&[(1, 0), (2, 0)]);
    let c = shape_from_vec(&[(5, 5)]);
    assert_eq!(first_fit(vec![a.clone(), b.clone(), c.clone()], &grid), Some(b));
    assert_eq!(first_fit(vec![a.clone(), c.clone()], &grid), Some(c));
    assert_eq!(first_fit(vec![a.clone()], &grid), None);
    assert_eq!(first_fit(Vec::new(), &grid), None);
}

#[test]
fn a_fit_is_clear_and_on_the_board() {
    for seed in 0..5 {
        let mut rng = StdRng::seed_from_u64(seed);
        let mut grid = BoxGrid::new();
        let ts = tetrominoes();
        let mut placed = 0;
        for round in 0..80 {
            let t = &ts[round % 7];
            match find_fit_random(t, &grid, &mut rng) {
                Some(fit) => {
                    assert!(grid.is_clear(&fit));
                    assert!(in_bounds(&fit));
                    assert_eq!(fit.len(), 4);
                    assert!(rotations(t).contains(&tetromino_console::normalize(&fit)));
                    grid.set_shape(&fit, 1 + (round % 250) as u8);
                    placed += 1;
                }
                None => {
                    assert!(all_positions(t).iter().all(|p| !grid.is_clear(p)));
                }
            }
        }
        assert!(placed >= 20 && placed <= 50);
    }
}

#[test]
fn the_first_fit_on_an_empty_board_is_in_the_lowest_row() {
    let mut rng = StdRng::seed_from_u64(11);
    let grid = BoxGrid::new();
    for t in tetrominoes().iter() {
        let fit = find_fit_random(t, &grid, &mut rng).unwrap();
        assert_eq!(fit.iter().map(|p| p.y).min(), Some(0));
    }
}

#[test]
fn the_same_seed_gives_the_same_fits() {
    let run = |seed: u64| -> Vec<Option<Shape>> {
        let mut rng = StdRng::seed_from_u64(seed);
        let mut grid = BoxGrid::new();
        let ts = tetrominoes();
        let mut fits = Vec::new();
        for round in 0..60 {
            let fit = find_fit_random(&ts[(round * 3) % 7], &grid, &mut rng);
            if let Some(s) = &fit {
                grid.set_shape(s, 5);
            }
            fits.push(fit);
        }
        fits
    };
    assert_eq!(run(42), run(42));
    assert_eq!(run(7), run(7));
    assert_ne!(run(42), run(7));
}

#[test]
fn a_full_board_has_no_fit() {
    let grid = full_board();
    let mut rng = StdRng::seed_from_u64(3);
    for t in tetrominoes().iter() {
        assert_eq!(find_fit_random(t, &grid, &mut rng), None);
    }
    assert_eq!(find_fit_random(&shape_from_vec(&[(0, 0)]), &grid, &mut rng), None);
}

#[test]
fn the_last_free_cells_are_found() {
    let mut grid = full_board();
    let gap = shape_from_vec(&[(6, 12), (6, 13), (7, 12), (7, 13)]);
    grid.unset_shape(&gap);
    let ts = tetrominoes();
    for seed in 0..10 {
        let mut rng = StdRng::seed_from_u64(seed);
        assert_eq!(find_fit_random(&ts[1], &grid, &mut rng), Some(gap.clone()));
        assert_eq!(find_fit_random(&ts[0], &grid, &mut rng), None);
    }
}
