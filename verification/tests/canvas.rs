use qdplot::canvas::Canvas;
use qdplot::error::CanvasError;
use qdplot::ratio::Ratio;

fn whole(v: i64) -> Ratio {
    Ratio::whole(v)
}

#[test]
fn new_canvas_is_blank() {
    let canvas = Canvas::new();
    assert_eq!(canvas.height(), 25);
    assert_eq!(canvas.width(), 80);
    for line in 0..25 {
        for column in 0..80 {
            assert_eq!(canvas.cell(line, column), Some(b' '));
        }
    }
    assert_eq!(canvas.cell(25, 0), None);
    assert_eq!(canvas.cell(0, 80), None);
    assert_eq!(canvas.x_range(), (whole(0), whole(0)));
    assert_eq!(canvas.y_range(), (whole(0), whole(0)));
}

#[test]
fn canvas_of_any_size() {
    let canvas = Canvas::from_size(3, 5);
    assert_eq!(canvas.height(), 3);
    assert_eq!(canvas.width(), 5);
    assert_eq!(canvas.to_string(), "     \n     \n     \n");
}

#[test]
fn set_cell_writes_in_place() {
    let mut canvas = Canvas::from_size(2, 3);
    canvas.set_cell(1, 2, b'x').unwrap();
    canvas.set_cell(0, 0, b'y').unwrap();
    assert_eq!(canvas.cell(1, 2), Some(b'x'));
    assert_eq!(canvas.to_string(), "y  \n  x\n");
    canvas.set_cell(1, 2, b'z').unwrap();
    assert_eq!(canvas.to_string(), "y  \n  z\n");
}

#[test]
fn set_cell_outside_is_out_of_range() {
    let mut canvas = Canvas::new();
    assert!(matches!(canvas.set_cell(25, 0, b'x'), Err(CanvasError::OutOfRange(_))));
    assert!(matches!(canvas.set_cell(0, 80, b'x'), Err(CanvasError::OutOfRange(_))));
    match canvas.set_cell(30, 7, b'x') {
        Err(CanvasError::OutOfRange(text)) => {
            assert_eq!(text, "try to write in (30, 7) (Canvas size: (25, 80))")
        }
        _ => panic!("a cell outside the canvas must be out of range"),
    }
    assert_eq!(canvas.to_string(), Canvas::new().to_string());
}

#[test]
fn clear_blanks_the_cells_and_keeps_the_ranges() {
    let mut canvas = Canvas::new();
    canvas.set_x_range(0, 10);
    canvas.set_y_range(-5, 5);
    canvas.set_cell(3, 3, b'#').unwrap();
    let x_range = canvas.x_range();
    let y_range = canvas.y_range();
    canvas.clear();
    assert_eq!(canvas.to_string(), Canvas::new().to_string());
    assert_eq!(canvas.x_range(), x_range);
    assert_eq!(canvas.y_range(), y_range);
    assert_eq!(canvas.height(), 25);
    assert_eq!(canvas.width(), 80);
}

#[test]
fn x_range_leaves_a_cell_on_either_side() {
    let mut canvas = Canvas::new();
    canvas.set_x_range(0, 10);
    // a cell is 10 / 80 wide
    assert_eq!(canvas.x_range(), (Ratio::new(-1000, 8000), Ratio::new(81000, 8000)));
    assert!(canvas.x_range().0.same(Ratio::new(-1, 8)));
    canvas.set_x_range(-4, 4);
    assert_eq!(canvas.x_range(), (Ratio::new(-32800, 8000), Ratio::new(32800, 8000)));
}

#[test]
fn y_range_leaves_two_cells_below_and_none_above() {
    let mut canvas = Canvas::new();
    canvas.set_y_range(0, 10);
    // a cell is 10 / 25 high
    assert_eq!(canvas.y_range(), (Ratio::new(-2000, 2500), Ratio::new(25000, 2500)));
    assert!(canvas.y_range().0.same(Ratio::new(-4, 5)));
    assert!(canvas.y_range().1.same(Ratio::whole(10)));
    canvas.set_y_range(-3, 2);
    assert_eq!(canvas.y_range(), (Ratio::new(-8500, 2500), Ratio::new(5000, 2500)));
}

#[test]
fn a_margin_widens_the_ranges() {
    let mut canvas = Canvas::new();
    assert_eq!(canvas.margin(), 0);
    canvas.set_margin(5);
    assert_eq!(canvas.margin(), 5);
    canvas.set_x_range(0, 10);
    // a twentieth of 10 on either side, and a cell of 11 / 80
    assert_eq!(canvas.x_range(), (Ratio::new(-5100, 8000), Ratio::new(85100, 8000)));
    assert!(canvas.x_range().0.same(Ratio::new(-6375, 10000)));
    assert!(canvas.x_range().1.same(Ratio::new(106375, 10000)));
    canvas.set_y_range(0, 10);
    // a twentieth of 10 on either side, and two cells of 11 / 25 below
    assert_eq!(canvas.y_range(), (Ratio::new(-3450, 2500), Ratio::new(26250, 2500)));
    assert!(canvas.y_range().0.same(Ratio::new(-138, 100)));
    assert!(canvas.y_range().1.same(Ratio::new(105, 10)));
}

#[test]
fn the_margin_outlasts_clearing_and_leaves_the_ranges() {
    let mut canvas = Canvas::new();
    canvas.set_x_range(0, 10);
    let x_range = canvas.x_range();
    canvas.set_margin(100);
    assert_eq!(canvas.x_range(), x_range);
    canvas.clear();
    assert_eq!(canvas.margin(), 100);
    canvas.set_x_range(i32::MIN, i32::MAX);
    canvas.set_y_range(i32::MIN, i32::MAX);
    canvas.draw_value(Ratio::whole(i32::MAX as i64), Ratio::whole(i32::MAX as i64), b'x').unwrap();
    canvas.draw_value(Ratio::whole(i32::MIN as i64), Ratio::whole(i32::MIN as i64), b'y').unwrap();
    // the values take the middle third of either axis
    assert_eq!(canvas.cell(8, 52), Some(b'x'));
    assert_eq!(canvas.cell(16, 27), Some(b'y'));
}

#[test]
fn bounds_are_set_as_given() {
    let mut canvas = Canvas::new();
    canvas.set_x_bounds(Ratio::new(-1, 10), Ratio::new(11, 10));
    canvas.set_y_bounds(whole(3), whole(9));
    assert_eq!(canvas.x_range(), (Ratio::new(-1, 10), Ratio::new(11, 10)));
    assert_eq!(canvas.y_range(), (whole(3), whole(9)));
}

#[test]
fn lookups_on_a_canvas_without_ranges_are_out_of_range() {
    let canvas = Canvas::new();
    assert!(matches!(canvas.column_of(whole(0)), Err(CanvasError::OutOfRange(_))));
    assert!(matches!(canvas.level_of(whole(0)), Err(CanvasError::OutOfRange(_))));
    match canvas.step_column(3) {
        Err(CanvasError::OutOfRange(text)) => assert_eq!(text, "0/1 < 0/80 < 0/1"),
        _ => panic!("an axis without an interval holds no point"),
    }
}

#[test]
fn draw_value_counts_rows_from_the_bottom() {
    let mut canvas = Canvas::new();
    canvas.set_x_range(0, 10);
    canvas.set_y_range(0, 10);
    // level of 0: 24 * 20 / 270 = 1.8, column of 0: 79 * 10 / 820 = 0.96
    canvas.draw_value(whole(0), whole(0), b'a').unwrap();
    assert_eq!(canvas.cell(23, 1), Some(b'a'));
    // level of 10: 24, column of 10: 79 * 810 / 820 = 78.04
    canvas.draw_value(whole(10), whole(10), b'b').unwrap();
    assert_eq!(canvas.cell(1, 78), Some(b'b'));
    // level of 5: 24 * 145 / 270 = 12.9, column of 5: 79 * 410 / 820 = 39.5
    canvas.draw_value(whole(5), whole(5), b'c').unwrap();
    assert_eq!(canvas.cell(12, 40), Some(b'c'));
}

#[test]
fn draw_value_at_the_lower_bound_falls_below_the_last_row() {
    let mut canvas = Canvas::new();
    canvas.set_x_bounds(whole(0), whole(10));
    canvas.set_y_bounds(whole(0), whole(10));
    match canvas.draw_value(whole(3), whole(0), b'a') {
        Err(CanvasError::OutOfRange(text)) => {
            assert_eq!(text, "try to write in (25, 24) (Canvas size: (25, 80))")
        }
        _ => panic!("the level zero lies below the last row"),
    }
    assert_eq!(canvas.to_string(), Canvas::new().to_string());
}

#[test]
fn draw_value_reports_the_y_before_the_x() {
    let mut canvas = Canvas::new();
    canvas.set_x_bounds(whole(0), whole(10));
    canvas.set_y_bounds(whole(0), whole(20));
    match canvas.draw_value(whole(11), whole(21), b'a') {
        Err(CanvasError::OutOfRange(text)) => assert_eq!(text, "0/1 < 21/1 < 20/1"),
        _ => panic!("both coordinates are out of range"),
    }
    match canvas.draw_value(whole(11), whole(20), b'a') {
        Err(CanvasError::OutOfRange(text)) => assert_eq!(text, "0/1 < 11/1 < 10/1"),
        _ => panic!("the x is out of range"),
    }
}

#[test]
fn sample_points_cut_the_x_axis_evenly() {
    let mut canvas = Canvas::from_size(5, 4);
    canvas.set_x_bounds(whole(0), whole(8));
    let first = canvas.sample_point(0);
    let second = canvas.sample_point(1);
    let last = canvas.sample_point(4);
    assert_eq!(first.num, 0);
    assert_eq!(second.num, 2 * second.den);
    assert_eq!(last.num, 8 * last.den);
    // 3 * step / 4, a half going up
    assert_eq!(canvas.step_column(0).unwrap(), 0);
    assert_eq!(canvas.step_column(1).unwrap(), 1);
    assert_eq!(canvas.step_column(2).unwrap(), 2);
    assert_eq!(canvas.step_column(3).unwrap(), 2);
    assert_eq!(canvas.step_column(4).unwrap(), 3);
}

#[test]
fn draw_at_step_marks_the_column_of_the_step() {
    let mut canvas = Canvas::from_size(5, 4);
    canvas.set_x_bounds(whole(0), whole(8));
    canvas.set_y_bounds(whole(0), whole(4));
    canvas.draw_at_step(3, whole(2), b'*').unwrap();
    // level of 2: 4 * 2 / 4 = 2
    assert_eq!(canvas.to_string(), "    \n    \n    \n  * \n    \n");
}

#[test]
fn axes_cross_at_the_origin() {
    let mut canvas = Canvas::new();
    canvas.set_x_range(0, 10);
    canvas.set_y_range(0, 10);
    canvas.draw_axes().unwrap();
    // the column of x = 0 is 1, the level of y = 0 is 2
    assert_eq!(canvas.cell(2, 1), Some(b'+'));
    assert_eq!(canvas.cell(2, 0), Some(b'-'));
    assert_eq!(canvas.cell(2, 2), Some(b'-'));
    assert_eq!(canvas.cell(2, 6), Some(b'+'));
    assert_eq!(canvas.cell(2, 76), Some(b'+'));
    assert_eq!(canvas.cell(2, 79), Some(b'-'));
    assert_eq!(canvas.cell(0, 1), Some(b'|'));
    assert_eq!(canvas.cell(1, 1), Some(b'|'));
    assert_eq!(canvas.cell(7, 1), Some(b'+'));
    assert_eq!(canvas.cell(22, 1), Some(b'+'));
    assert_eq!(canvas.cell(24, 1), Some(b'|'));
    assert_eq!(canvas.cell(0, 0), Some(b' '));
    assert_eq!(canvas.cell(3, 2), Some(b' '));
}

#[test]
fn axes_without_ranges_run_along_the_left_and_the_bottom() {
    let mut canvas = Canvas::from_size(7, 12);
    canvas.draw_axes().unwrap();
    let expected = [
        "|           ",
        "+           ",
        "|           ",
        "|           ",
        "|           ",
        "|           ",
        "+----+----+-",
        "",
    ]
    .join("\n");
    assert_eq!(canvas.to_string(), expected);
    assert_eq!(canvas.cell(6, 0), Some(b'+'));
}

#[test]
fn axes_of_negative_ranges_run_along_the_right_and_the_top() {
    let mut canvas = Canvas::from_size(7, 12);
    canvas.set_x_bounds(whole(-10), whole(-1));
    canvas.set_y_bounds(whole(-10), whole(-1));
    canvas.draw_axes().unwrap();
    let expected = [
        "-+----+----+",
        "           |",
        "           |",
        "           |",
        "           |",
        "           +",
        "           |",
        "",
    ]
    .join("\n");
    assert_eq!(canvas.to_string(), expected);
    assert_eq!(canvas.cell(0, 11), Some(b'+'));
}

#[test]
fn axes_of_positive_ranges_run_along_the_left_and_the_bottom() {
    let mut canvas = Canvas::from_size(7, 12);
    canvas.set_x_bounds(whole(1), whole(10));
    canvas.set_y_bounds(whole(1), whole(10));
    canvas.draw_axes().unwrap();
    assert_eq!(canvas.cell(6, 0), Some(b'+'));
    assert_eq!(canvas.cell(6, 5), Some(b'+'));
    assert_eq!(canvas.cell(6, 4), Some(b'-'));
    assert_eq!(canvas.cell(1, 0), Some(b'+'));
    assert_eq!(canvas.cell(0, 0), Some(b'|'));
}

#[test]
fn axes_draw_over_what_was_there() {
    let mut canvas = Canvas::from_size(7, 12);
    canvas.set_cell(6, 0, b'x').unwrap();
    canvas.set_cell(6, 3, b'x').unwrap();
    canvas.set_cell(2, 2, b'x').unwrap();
    canvas.draw_axes().unwrap();
    assert_eq!(canvas.cell(6, 0), Some(b'+'));
    assert_eq!(canvas.cell(6, 3), Some(b'-'));
    assert_eq!(canvas.cell(2, 2), Some(b'x'));
}

#[test]
fn text_has_one_line_per_row() {
    let mut canvas = Canvas::new();
    canvas.set_cell(0, 0, b'T').unwrap();
    canvas.set_cell(24, 79, b'B').unwrap();
    let text = canvas.to_string();
    let lines: Vec<&str> = text.lines().collect();
    assert_eq!(lines.len(), 25);
    assert!(lines.iter().all(|line| line.len() == 80));
    assert!(lines[0].starts_with('T'));
    assert!(lines[24].ends_with('B'));
    assert!(text.ends_with('\n'));
}

#[test]
fn text_shows_a_byte_as_the_character_of_its_code() {
    let mut canvas = Canvas::from_size(1, 2);
    canvas.set_cell(0, 0, 0xe9).unwrap();
    canvas.set_cell(0, 1, b'~').unwrap();
    assert_eq!(canvas.to_string(), "\u{e9}~\n");
}
