use tetromino_console::{
    boxc, double_x, move_point, offset, order_points, point, precedes, shape_from_vec, BoxGrid, Direction, LineGrid,
    Point, DIRECTIONS, ERROR_CHAR,
};

#[test]
fn boxc_follows_the_table() {
    assert_eq!(boxc(&vec![0, 0, 0, 0]), Some(' '));
    assert_eq!(boxc(&vec![1, 0, 1, 0]), Some('│'));
    assert_eq!(boxc(&vec![1, 0, 1, 1]), Some('┤'));
    assert_eq!(boxc(&vec![0, 0, 1, 1]), Some('┐'));
    assert_eq!(boxc(&vec![1, 1, 0, 0]), Some('└'));
    assert_eq!(boxc(&vec![1, 1, 0, 1]), Some('┴'));
    assert_eq!(boxc(&vec![0, 1, 1, 1]), Some('┬'));
    assert_eq!(boxc(&vec![1, 1, 1, 0]), Some('├'));
    assert_eq!(boxc(&vec![0, 1, 0, 1]), Some('─'));
    assert_eq!(boxc(&vec![1, 1, 1, 1]), Some('┼'));
    assert_eq!(boxc(&vec![1, 0, 0, 1]), Some('┘'));
    assert_eq!(boxc(&vec![0, 1, 1, 0]), Some('┌'));
    assert_eq!(boxc(&vec![0, 0, 0, 1]), Some('╴'));
    assert_eq!(boxc(&vec![1, 0, 0, 0]), Some('╵'));
    assert_eq!(boxc(&vec![0, 1, 0, 0]), Some('╶'));
    assert_eq!(boxc(&vec![0, 0, 1, 0]), Some('╷'));
}

#[test]
fn boxc_has_no_glyph_for_other_input() {
    assert_eq!(boxc(&vec![]), None);
    assert_eq!(boxc(&vec![1, 1, 1]), None);
    assert_eq!(boxc(&vec![1, 1, 1, 1, 1]), None);
    assert_eq!(boxc(&vec![2, 0, 0, 0]), None);
    assert_eq!(boxc(&vec![0, 0, 0, 255]), None);
}

#[test]
fn offset_steps_once() {
    let p = point(3, -4);
    assert_eq!(offset(&p, &Direction::Up), Point { x: 3, y: -3 });
    assert_eq!(offset(&p, &Direction::Right), Point { x: 4, y: -4 });
    assert_eq!(offset(&p, &Direction::Down), Point { x: 3, y: -5 });
    assert_eq!(offset(&p, &Direction::Left), Point { x: 2, y: -4 });
}

#[test]
fn double_x_and_move_point() {
    assert_eq!(double_x(&point(-7, 5)), point(-14, 5));
    assert_eq!(double_x(&point(0, 1)), point(0, 1));
    assert_eq!(move_point(&point(1, 2), &point(-3, 10)), point(-2, 12));
}

#[test]
fn points_are_ordered_by_x_then_y() {
    let a = point(0, 5);
    let b = point(1, 0);
    let c = point(1, 1);
    assert_eq!(order_points(&a, &b), (&a, &b));
    assert_eq!(order_points(&b, &a), (&a, &b));
    assert_eq!(order_points(&c, &b), (&b, &c));
    assert_eq!(order_points(&b, &c), (&b, &c));
    assert!(precedes(&a, &b) && !precedes(&b, &a) && precedes(&b, &b));
    assert_eq!(precedes(&a, &b), a <= b);
    assert_eq!(precedes(&c, &b), c <= b);
}

#[test]
fn line_grid_names_an_edge_from_either_end() {
    let mut g = LineGrid::new();
    let a = point(2, 2);
    let b = point(2, 3);
    assert_eq!(g.get(&a, &b), 0);
    g.line(&b, &a, 1);
    assert_eq!(g.get(&a, &b), 1);
    assert_eq!(g.get(&b, &a), 1);
    g.line(&a, &b, 2);
    assert_eq!(g.get(&b, &a), 2);
    assert_eq!(g.get(&a, &point(3, 2)), 0);
    let c = point(3, 1);
    g.line(&a, &c, 1);
    assert_eq!(g.get(&c, &a), 1);
}

#[test]
fn empty_line_grid_renders_the_origin() {
    assert_eq!(LineGrid::new().render(), " \n");
}

#[test]
fn line_grid_renders_rows_from_the_top() {
    let mut g = LineGrid::new();
    g.line(&point(0, 0), &point(0, 1), 1);
    g.line(&point(0, 1), &point(1, 1), 1);
    assert_eq!(g.render(), "┌╴\n╵ \n");
}

#[test]
fn line_grid_includes_the_origin_in_its_bounds() {
    let mut g = LineGrid::new();
    g.line(&point(2, -1), &point(3, -1), 1);
    assert_eq!(g.render(), "    \n  ╶╴\n");
}

#[test]
fn line_grid_shows_the_error_glyph() {
    let mut g = LineGrid::new();
    g.line(&point(0, 0), &point(1, 0), 2);
    let text = g.render();
    assert_eq!(text, format!("{}{}\n", ERROR_CHAR, ERROR_CHAR));
    assert_eq!(ERROR_CHAR, '╳');
}

#[test]
fn box_grid_stores_colors() {
    let mut g = BoxGrid::new();
    let p = point(4, 4);
    assert_eq!(g.get(&p), 0);
    g.set(&p, 7);
    assert_eq!(g.get(&p), 7);
    g.set(&p, 9);
    assert_eq!(g.get(&p), 9);
    assert_eq!(g.keys(), vec![p]);
    g.set(&point(5, 4), 1);
    g.unset(&p);
    assert_eq!(g.get(&p), 0);
    assert_eq!(g.get(&point(5, 4)), 1);
    assert_eq!(g.keys(), vec![point(5, 4)]);
    g.unset(&p);
    assert_eq!(g.keys().len(), 1);
}

#[test]
fn box_grid_paints_and_clears_shapes() {
    let mut g = BoxGrid::new();
    let s = shape_from_vec(&[(0, 0), (0, 1), (1, 1)]);
    let other = shape_from_vec(&[(1, 0), (2, 0)]);
    assert!(g.is_clear(&s));
    g.set_shape(&s, 3);
    assert!(!g.is_clear(&s));
    assert!(g.is_clear(&other));
    assert!(!g.is_clear(&shape_from_vec(&[(1, 0), (1, 1)])));
    assert_eq!(g.get(&point(1, 1)), 3);
    let mut keys = g.keys();
    keys.sort();
    assert_eq!(keys, vec![point(0, 0), point(0, 1), point(1, 1)]);
    g.unset_shape(&shape_from_vec(&[(0, 0), (1, 1), (8, 8)]));
    assert_eq!(g.keys(), vec![point(0, 1)]);
    assert!(g.is_clear(&shape_from_vec(&[(0, 0), (1, 1)])));
    assert!(g.is_clear(&Vec::new()));
}

#[test]
fn a_cell_set_to_the_empty_color_counts_as_clear() {
    let mut g = BoxGrid::new();
    g.set(&point(1, 1), 0);
    assert!(g.is_clear(&shape_from_vec(&[(1, 1)])));
    assert_eq!(g.keys(), vec![point(1, 1)]);
    assert_eq!(g.render(), " \n");
}

#[test]
fn empty_box_grid_renders_one_blank() {
    assert_eq!(BoxGrid::new().render(), " \n");
}

#[test]
fn single_cell_renders_as_a_box() {
    let mut g = BoxGrid::new();
    g.set(&point(0, 0), 1);
    assert_eq!(g.render(), "┌─┐\n└─┘\n");
}

#[test]
fn upright_bar_renders_as_one_outline() {
    let mut g = BoxGrid::new();
    g.set_shape(&shape_from_vec(&[(0, 0), (0, 1), (0, 2), (0, 3)]), 1);
    assert_eq!(g.render(), "┌─┐\n│ │\n│ │\n│ │\n└─┘\n");
}

#[test]
fn neighbors_of_different_color_are_divided() {
    let mut g = BoxGrid::new();
    g.set(&point(0, 0), 1);
    g.set(&point(1, 0), 2);
    g.set(&point(0, 1), 2);
    assert_eq!(g.render(), "┌─┐  \n├─┼─┐\n└─┴─┘\n");
}

#[test]
fn directions_go_clockwise_from_up() {
    assert_eq!(DIRECTIONS, [Direction::Up, Direction::Right, Direction::Down, Direction::Left]);
    let p = point(0, 0);
    let around: Vec<Point> = DIRECTIONS.iter().map(|d| offset(&p, d)).collect();
    assert_eq!(around, vec![point(0, 1), point(1, 0), point(0, -1), point(-1, 0)]);
}
