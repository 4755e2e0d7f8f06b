use qdplot::canvas::Canvas;
use qdplot::histogram::Histogram;
use qdplot::ratio::Ratio;

fn whole(v: i64) -> Ratio {
    Ratio::whole(v)
}

fn all(values: &[i32]) -> Vec<Option<i32>> {
    values.iter().map(|&v| Some(v)).collect()
}

#[test]
fn hist_empty() {
    let hist = Histogram::default();
    assert!(hist.get_value(whole(0)).is_none());
}

#[test]
fn hist_values() {
    // tenths: -1.0, 0.0, 0.0, 0.1, 0.2, 10.0
    let values = all(&[-10, 0, 0, 1, 2, 100]);
    let hist = Histogram::from_vec(values);
    assert_eq!(hist.get_value(whole(0)), Some(4));
    assert_eq!(hist.get_value(whole(110)), Some(0));
    assert_eq!(hist.get_value(whole(50)), Some(0));
    assert_eq!(hist.get_value(whole(10)), Some(1));
}

#[test]
fn no_sample_gives_no_bins() {
    let hist = Histogram::from_vec(Vec::new());
    assert!(hist.is_empty());
    assert_eq!(hist.span(), None);
    assert_eq!(hist.peak(), 0);
    assert_eq!(hist.get_value(whole(3)), None);
    let hist = Histogram::from_vec(vec![None, None, None]);
    assert!(hist.is_empty());
}

#[test]
fn the_bins_reach_from_the_least_to_just_above_the_largest() {
    let hist = Histogram::from_vec(all(&[-10, 0, 0, 1, 2, 100]));
    // the last boundary is 100 + 110 / 1000
    assert_eq!(hist.span(), Some((Ratio::new(-100000, 10000), Ratio::new(1001100, 10000))));
    assert_eq!(hist.peak(), 4);
    assert!(!hist.is_empty());
}

#[test]
fn a_value_lies_in_the_bin_before_the_first_greater_boundary() {
    let hist = Histogram::from_vec(all(&[0, 100]));
    // boundaries every 10.01
    assert_eq!(hist.get_bin(whole(0)), Some(0));
    assert_eq!(hist.get_bin(whole(10)), Some(0));
    assert_eq!(hist.get_bin(Ratio::new(1001, 100)), Some(1));
    assert_eq!(hist.get_bin(whole(11)), Some(1));
    assert_eq!(hist.get_bin(whole(100)), Some(9));
    assert_eq!(hist.get_bin(Ratio::new(10009, 100)), Some(9));
}

#[test]
fn a_value_outside_the_bins_has_none() {
    let hist = Histogram::from_vec(all(&[0, 100]));
    assert_eq!(hist.get_bin(whole(-1)), None);
    assert_eq!(hist.get_bin(Ratio::new(-1, 1000)), None);
    assert_eq!(hist.get_bin(whole(101)), None);
    // the last boundary itself is in range, and no boundary is greater
    assert_eq!(hist.get_bin(Ratio::new(1001, 10)), None);
    assert_eq!(hist.get_value(Ratio::new(1001, 10)), Some(0));
}

#[test]
fn every_sample_is_counted_once() {
    let values = vec![Some(3), None, Some(-7), Some(12), Some(3), Some(4), None, Some(12), Some(0)];
    let hist = Histogram::from_vec(values);
    let mut sum = 0;
    for bin in 0..10 {
        // the middle of each bin: -7 + (bin + 1/2) * 1.9019
        let x = Ratio::new(-70000 + 19019 * bin + 9509, 10000);
        assert_eq!(hist.get_bin(x), Some(bin as usize));
        sum += hist.get_value(x).unwrap();
    }
    assert_eq!(sum, 7);
    assert_eq!(hist.get_value(whole(12)), Some(2));
    assert_eq!(hist.get_value(whole(-7)), Some(1));
}

#[test]
fn equal_samples_fall_in_no_bin() {
    let hist = Histogram::from_vec(all(&[5, 5, 5]));
    assert_eq!(hist.span(), Some((Ratio::new(50000, 10000), Ratio::new(50000, 10000))));
    assert_eq!(hist.get_bin(whole(5)), None);
    assert_eq!(hist.get_value(whole(5)), Some(0));
    assert_eq!(hist.peak(), 0);
}

#[test]
fn reset_and_add() {
    let mut hist = Histogram::default();
    hist.reset_bins(0, 100);
    assert_eq!(hist.peak(), 0);
    hist.add_values(&[5, 95, 6, 200, -1]);
    assert_eq!(hist.get_value(whole(5)), Some(2));
    assert_eq!(hist.get_value(whole(95)), Some(1));
    assert_eq!(hist.get_value(whole(50)), Some(0));
    hist.add_values(&[7]);
    assert_eq!(hist.get_value(whole(5)), Some(3));
    hist.reset_bins(0, 100);
    assert_eq!(hist.get_value(whole(5)), Some(0));
}

#[test]
fn the_counts_are_drawn_column_by_column() {
    let hist = Histogram::from_vec(all(&[-10, 0, 0, 1, 2, 100]));
    let mut canvas = Canvas::from_size(25, 10);
    let (lo, hi) = hist.span().unwrap();
    canvas.set_x_bounds(lo, hi);
    canvas.set_y_bounds(Ratio::new(-4, 20), whole(4));
    hist.draw_into(&mut canvas, b'#').unwrap();
    let mut expected = Canvas::from_size(25, 10);
    // the counts 4, 1, 0 and 1 at the levels 24, 7, 1 and 7
    expected.set_cell(1, 0, b'#').unwrap();
    expected.set_cell(18, 1, b'#').unwrap();
    for column in 2..=7 {
        expected.set_cell(24, column, b'#').unwrap();
    }
    expected.set_cell(18, 8, b'#').unwrap();
    assert_eq!(canvas.to_string(), expected.to_string());
}

#[test]
fn a_histogram_without_bins_draws_nothing() {
    let hist = Histogram::default();
    let mut canvas = Canvas::new();
    hist.draw_into(&mut canvas, b'#').unwrap();
    assert_eq!(canvas.to_string(), Canvas::new().to_string());
}
