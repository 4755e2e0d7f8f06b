use qdplot::canvas::Canvas;
use qdplot::dataset::{DataSet, PlotKind};
use qdplot::error::CanvasError;
use qdplot::ratio::Ratio;

fn point(x: i32, y: i32) -> (Option<i32>, Option<i32>) {
    (Some(x), Some(y))
}

fn sample() -> DataSet {
    let mut dataset = DataSet::default();
    dataset.add_points(String::from("a"), vec![point(0, 0), point(10, 10)]);
    dataset.add_points(String::from("b"), vec![point(5, 5), (None, Some(3)), (Some(2), None)]);
    dataset
}

fn spread() -> DataSet {
    let mut dataset = DataSet::default();
    dataset.add_points(
        String::from("one"),
        vec![point(0, 1), point(1, 3), point(2, 4), point(3, 0), point(4, 2)],
    );
    dataset.add_points(
        String::from("two"),
        vec![point(0, 4), point(1, 4), point(2, 3), point(3, 1), point(4, 2), point(5, 4)],
    );
    dataset
}

#[test]
fn points_are_added_under_their_label() {
    let mut dataset = DataSet::default();
    assert_eq!(dataset.len(), 0);
    dataset.add_points(String::from("a"), vec![point(0, 0)]);
    dataset.add_points(String::from("b"), vec![point(1, 1)]);
    dataset.add_points(String::from("a"), vec![point(2, 2), point(3, 3)]);
    assert_eq!(dataset.len(), 2);
    let series = dataset.series();
    assert_eq!(series[0].label, "a");
    assert_eq!(series[0].points, vec![point(0, 0), point(2, 2), point(3, 3)]);
    assert_eq!(series[1].label, "b");
    assert_eq!(series[1].points, vec![point(1, 1)]);
}

#[test]
fn the_default_kind_is_point() {
    assert_eq!(PlotKind::default(), PlotKind::Point);
    assert_eq!(PlotKind::Point.to_string(), "point");
    assert_eq!(PlotKind::Boxplot.to_string(), "boxplot");
    assert_eq!(PlotKind::CDF.to_string(), "cdf");
    assert_eq!(PlotKind::Histogram.to_string(), "histogram");
}

#[test]
fn points_are_marked_with_the_first_byte_of_the_label() {
    let dataset = sample();
    let mut canvas = Canvas::new();
    assert!(dataset.can_draw(canvas.height(), PlotKind::Point));
    dataset.draw_into(&mut canvas, PlotKind::Point).unwrap();
    assert_eq!(canvas.x_range(), (Ratio::new(-1000, 8000), Ratio::new(81000, 8000)));
    assert_eq!(canvas.y_range(), (Ratio::new(-2000, 2500), Ratio::new(25000, 2500)));
    assert_eq!(canvas.cell(23, 1), Some(b'a'));
    assert_eq!(canvas.cell(1, 78), Some(b'a'));
    assert_eq!(canvas.cell(12, 40), Some(b'b'));
    // the axes cross in the column of x = 0 and the row of the level of y = 0
    assert_eq!(canvas.cell(2, 1), Some(b'+'));
    assert_eq!(canvas.cell(22, 1), Some(b'+'));
    assert_eq!(canvas.cell(24, 1), Some(b'|'));
    let marks = canvas.to_string().bytes().filter(|&c| c == b'a' || c == b'b').count();
    assert_eq!(marks, 3);
}

#[test]
fn a_later_series_draws_over_an_earlier_one() {
    let mut dataset = DataSet::default();
    dataset.add_points(String::from("x"), vec![point(0, 0), point(10, 10)]);
    dataset.add_points(String::from("y"), vec![point(10, 10)]);
    let mut canvas = Canvas::new();
    dataset.draw_into(&mut canvas, PlotKind::Point).unwrap();
    assert_eq!(canvas.cell(23, 1), Some(b'x'));
    assert_eq!(canvas.cell(1, 78), Some(b'y'));
}

#[test]
fn a_store_without_points_has_no_data() {
    let dataset = DataSet::default();
    let mut canvas = Canvas::new();
    assert!(dataset.can_draw(canvas.height(), PlotKind::Point));
    assert!(matches!(dataset.draw_into(&mut canvas, PlotKind::Point), Err(CanvasError::NoData)));
    assert!(matches!(
        dataset.draw_into(&mut canvas, PlotKind::Histogram),
        Err(CanvasError::NoData)
    ));
    assert_eq!(canvas.to_string(), Canvas::new().to_string());

    let mut dataset = DataSet::default();
    dataset.add_points(String::from("a"), Vec::new());
    dataset.add_points(String::from("b"), vec![(Some(1), None)]);
    assert!(matches!(
        dataset.draw_into(&mut canvas, PlotKind::Histogram),
        Err(CanvasError::NoData)
    ));
}

#[test]
fn what_cannot_be_drawn_is_told_apart() {
    let mut dataset = DataSet::default();
    dataset.add_points(String::from("a"), vec![point(1, 1)]);
    // a single point spans no interval
    assert!(!dataset.can_draw(25, PlotKind::Point));
    // and has no sample strictly inside its fences
    assert!(!dataset.can_draw(25, PlotKind::Boxplot));
    assert!(dataset.can_draw(25, PlotKind::CDF));
    assert!(dataset.can_draw(25, PlotKind::Histogram));

    let mut dataset = DataSet::default();
    dataset.add_points(String::new(), vec![point(1, 1), point(2, 3)]);
    // a series without a label has no marker
    assert!(!dataset.can_draw(25, PlotKind::Point));
    assert!(!dataset.can_draw(25, PlotKind::CDF));
    assert!(!dataset.can_draw(25, PlotKind::Histogram));

    let dataset = spread();
    assert!(dataset.can_draw(25, PlotKind::Boxplot));
    assert!(dataset.can_draw(7, PlotKind::Boxplot));
    // the second box needs the rows 4 to 6
    assert!(!dataset.can_draw(6, PlotKind::Boxplot));
    assert!(dataset.can_draw(25, PlotKind::Point));
}

#[test]
fn box_plots_need_an_x_range() {
    let dataset = spread();
    let mut canvas = Canvas::new();
    assert!(matches!(
        dataset.draw_into(&mut canvas, PlotKind::Boxplot),
        Err(CanvasError::OutOfRange(_))
    ));
    assert_eq!(canvas.to_string(), Canvas::new().to_string());
}

#[test]
fn box_plots_are_drawn_every_fourth_row() {
    let dataset = spread();
    let mut canvas = Canvas::new();
    canvas.set_x_range(0, 4);
    dataset.draw_into(&mut canvas, PlotKind::Boxplot).unwrap();
    // the first series is 1, 3, 4, 0, 2: bars at the columns 1, 25, 49, 73 and 78
    for column in [1, 25, 49, 73, 78] {
        assert_eq!(canvas.cell(1, column), Some(b'|'));
    }
    assert_eq!(canvas.cell(0, 25), Some(b'-'));
    assert_eq!(canvas.cell(2, 72), Some(b'-'));
    assert_eq!(canvas.cell(3, 30), Some(b' '));
    // the second series is 4, 4, 3, 1, 2, 4: quartiles 2.5, 4 and 4, whiskers 2 and 4,
    // and 1 an outlier; 2 lies at the column 79 * 164 / 328 = 39.5, a half going up
    for column in [40, 49, 78] {
        assert_eq!(canvas.cell(5, column), Some(b'|'));
    }
    assert_eq!(canvas.cell(5, 20), Some(b'+'));
    assert_eq!(canvas.cell(5, 41), Some(b'-'));
    assert_eq!(canvas.cell(5, 50), Some(b' '));
    assert_eq!(canvas.cell(4, 49), Some(b'-'));
    assert_eq!(canvas.cell(6, 77), Some(b'-'));
    assert_eq!(canvas.cell(4, 78), Some(b' '));
    assert_eq!(canvas.cell(7, 49), Some(b' '));
}

#[test]
fn distributions_are_drawn_between_zero_and_one() {
    let dataset = spread();
    let mut canvas = Canvas::new();
    canvas.set_x_range(0, 4);
    dataset.draw_into(&mut canvas, PlotKind::CDF).unwrap();
    assert_eq!(canvas.y_range(), (Ratio::new(-1, 10), Ratio::new(11, 10)));
    // the level of zero is 2, that of one is 22
    assert_eq!(canvas.cell(23, 0), Some(b't'));
    assert_eq!(canvas.cell(3, 79), Some(b't'));
    let text = canvas.to_string();
    assert!(text.contains('o'));
    assert!(text.contains('t'));
}

#[test]
fn distributions_need_an_x_range() {
    let dataset = spread();
    let mut canvas = Canvas::new();
    assert!(matches!(
        dataset.draw_into(&mut canvas, PlotKind::CDF),
        Err(CanvasError::OutOfRange(_))
    ));
    // the axes were drawn before the first distribution failed
    assert_eq!(canvas.cell(2, 0), Some(b'+'));
    assert_eq!(canvas.cell(2, 5), Some(b'+'));
    assert_eq!(canvas.cell(24, 0), Some(b'|'));
}

#[test]
fn histograms_set_both_ranges() {
    let mut dataset = DataSet::default();
    dataset.add_points(
        String::from("h"),
        vec![point(0, -10), point(0, 0), point(0, 0), point(0, 1), point(0, 2), point(0, 100)],
    );
    dataset.add_points(String::from("k"), vec![point(0, 200), (Some(1), None), point(0, 150)]);
    let mut canvas = Canvas::from_size(25, 10);
    dataset.draw_into(&mut canvas, PlotKind::Histogram).unwrap();
    // the bins of the second series end at 200 + 50 / 1000
    assert_eq!(canvas.x_range(), (Ratio::new(-100000, 10000), Ratio::new(2000500, 10000)));
    assert_eq!(canvas.y_range(), (Ratio::new(-4, 20), Ratio::new(4, 1)));
    // the count 4 at the level 24, in the first column
    assert_eq!(canvas.cell(1, 0), Some(b'h'));
    let text = canvas.to_string();
    assert!(text.contains('k'));
    assert!(!text.contains('+'));
}

#[test]
fn drawing_again_after_clear_gives_the_same_canvas() {
    for kind in [PlotKind::Point, PlotKind::Boxplot, PlotKind::CDF, PlotKind::Histogram] {
        let dataset = spread();
        let mut canvas = Canvas::new();
        let first = dataset.draw_into(&mut canvas, kind).is_ok();
        let text = canvas.to_string();
        canvas.clear();
        let second = dataset.draw_into(&mut canvas, kind).is_ok();
        assert_eq!(first, second);
        assert_eq!(canvas.to_string(), text);
    }
}

#[test]
fn drawing_again_after_clear_keeps_a_range_set_before() {
    for kind in [PlotKind::Point, PlotKind::Boxplot, PlotKind::CDF, PlotKind::Histogram] {
        let dataset = spread();
        let mut canvas = Canvas::new();
        canvas.set_x_range(0, 5);
        canvas.clear();
        dataset.draw_into(&mut canvas, kind).unwrap();
        let text = canvas.to_string();
        assert_ne!(text, Canvas::new().to_string());
        canvas.clear();
        dataset.draw_into(&mut canvas, kind).unwrap();
        assert_eq!(canvas.to_string(), text);
    }
}
