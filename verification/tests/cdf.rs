use qdplot::canvas::Canvas;
use qdplot::cdf::CDF;
use qdplot::error::CanvasError;
use qdplot::ratio::Ratio;

fn whole(v: i64) -> Ratio {
    Ratio::whole(v)
}

#[test]
fn a_repeated_value_keeps_one_step() {
    let cdf = CDF::from_vec(vec![Some(3), Some(1), None, Some(2), Some(2)]);
    let expected = vec![
        (1, Ratio::new(1, 4)),
        (2, Ratio::new(3, 4)),
        (3, Ratio::new(4, 4)),
    ];
    assert_eq!(cdf.steps(), &expected);
}

#[test]
fn the_value_is_the_fraction_strictly_below() {
    let cdf = CDF::from_vec(vec![Some(3), Some(1), Some(2), Some(2)]);
    assert_eq!(cdf.get_value(whole(0)), whole(0));
    assert_eq!(cdf.get_value(whole(1)), whole(0));
    assert_eq!(cdf.get_value(Ratio::new(3, 2)), Ratio::new(1, 4));
    assert_eq!(cdf.get_value(whole(2)), Ratio::new(1, 4));
    assert_eq!(cdf.get_value(Ratio::new(5, 2)), Ratio::new(3, 4));
    assert_eq!(cdf.get_value(whole(3)), Ratio::new(3, 4));
    assert_eq!(cdf.get_value(whole(4)), Ratio::new(4, 4));
}

#[test]
fn the_value_never_falls_and_ends_at_one() {
    let cdf = CDF::from_vec(vec![Some(5), Some(-2), Some(9), Some(5), Some(0), Some(7)]);
    let mut last = whole(0);
    for n in -30..=100 {
        let y = cdf.get_value(Ratio::new(n, 10));
        assert!(last.le(y));
        last = y;
    }
    assert!(last.same(whole(1)));
    let steps = cdf.steps();
    assert!(steps[steps.len() - 1].1.same(whole(1)));
    assert_eq!(cdf.get_value(whole(-2)), whole(0));
    assert_eq!(cdf.get_value(whole(-3)), whole(0));
}

#[test]
fn no_sample_gives_no_step() {
    let cdf = CDF::from_vec(vec![None, None]);
    assert!(cdf.steps().is_empty());
    assert_eq!(cdf.get_value(whole(100)), whole(0));
    let cdf = CDF::from_vec(Vec::new());
    assert!(cdf.steps().is_empty());
}

#[test]
fn the_steps_are_drawn_from_one_end_of_the_axis_to_the_other() {
    let mut canvas = Canvas::from_size(25, 4);
    canvas.set_x_bounds(whole(0), whole(4));
    canvas.set_y_bounds(Ratio::new(-1, 10), Ratio::new(11, 10));
    let cdf = CDF::from_vec(vec![Some(3), Some(1), Some(2), Some(2)]);
    cdf.draw_into(&mut canvas, b'*').unwrap();
    let mut expected = Canvas::from_size(25, 4);
    // the values 0, 0, 1/4, 3/4 and 1 at the levels 2, 2, 7, 17 and 22
    expected.set_cell(23, 0, b'*').unwrap();
    expected.set_cell(23, 1, b'*').unwrap();
    expected.set_cell(18, 2, b'*').unwrap();
    expected.set_cell(8, 2, b'*').unwrap();
    expected.set_cell(3, 3, b'*').unwrap();
    assert_eq!(canvas.to_string(), expected.to_string());
}

#[test]
fn a_low_canvas_has_no_row_for_the_value_zero() {
    let mut canvas = Canvas::from_size(5, 4);
    canvas.set_x_bounds(whole(0), whole(4));
    canvas.set_y_bounds(Ratio::new(-1, 10), Ratio::new(11, 10));
    let cdf = CDF::from_vec(vec![Some(3), Some(1), Some(2), Some(2)]);
    match cdf.draw_into(&mut canvas, b'*') {
        Err(CanvasError::OutOfRange(text)) => {
            assert_eq!(text, "try to write in (5, 0) (Canvas size: (5, 4))")
        }
        _ => panic!("the level zero lies below the last row"),
    }
}

#[test]
fn drawing_needs_both_ranges() {
    let mut canvas = Canvas::new();
    let cdf = CDF::from_vec(vec![Some(3), Some(1)]);
    assert!(matches!(cdf.draw_into(&mut canvas, b'*'), Err(CanvasError::OutOfRange(_))));
    canvas.set_y_bounds(Ratio::new(-1, 10), Ratio::new(11, 10));
    match cdf.draw_into(&mut canvas, b'*') {
        Err(CanvasError::OutOfRange(text)) => assert_eq!(text, "0/1 < 0/80 < 0/1"),
        _ => panic!("without an x-range nothing can be placed"),
    }
}

#[test]
fn the_default_distribution_has_no_step() {
    let cdf = CDF::default();
    assert!(cdf.steps().is_empty());
    assert_eq!(cdf.get_value(whole(7)), whole(0));
}
