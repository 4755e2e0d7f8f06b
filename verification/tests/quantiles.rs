use qdplot::canvas::Canvas;
use qdplot::error::CanvasError;
use qdplot::quantiles::{get_value, quartile_of, Quantiles};
use qdplot::ratio::Ratio;

fn whole(v: i64) -> Ratio {
    Ratio::whole(v)
}

fn all(values: &[i32]) -> Vec<Option<i32>> {
    values.iter().map(|&v| Some(v)).collect()
}

#[test]
fn value_getter() {
    let v = [-1, 1];
    assert!(get_value(&v, Ratio::new(0, 1)).unwrap().same(whole(-1)));
    assert!(get_value(&v, Ratio::new(1, 1)).unwrap().same(whole(1)));
    assert!(get_value(&v, Ratio::new(1, 2)).unwrap().same(whole(0)));
    assert!(get_value(&v, Ratio::new(1, 4)).unwrap().same(Ratio::new(-1, 2)));

    let v = [-1, 1, 2];
    assert!(get_value(&v, Ratio::new(21, 10)).is_none());
    assert!(get_value(&v, Ratio::new(0, 1)).unwrap().same(whole(-1)));
    assert!(get_value(&v, Ratio::new(1, 1)).unwrap().same(whole(1)));
    assert!(get_value(&v, Ratio::new(1, 4)).unwrap().same(Ratio::new(-1, 2)));
    assert!(get_value(&v, Ratio::new(1, 2)).unwrap().same(whole(0)));

    let v = [];
    assert!(get_value(&v, Ratio::new(1, 4)).is_none());
}

#[test]
fn value_getter_keeps_the_denominator_of_the_index() {
    let v = [-1, 1, 2];
    assert_eq!(get_value(&v, Ratio::new(1, 4)), Some(Ratio::new(-2, 4)));
    assert_eq!(get_value(&v, Ratio::new(5, 4)), Some(Ratio::new(5, 4)));
    assert_eq!(get_value(&v, Ratio::new(6, 3)), Some(Ratio::new(6, 3)));
    assert_eq!(get_value(&v, Ratio::new(7, 3)), None);
    assert_eq!(get_value(&v, Ratio::new(-1, 3)), None);
}

#[test]
fn quantiles() {
    let v = all(&[1, 3, 4, 0, 2]);
    let q = Quantiles::from_slice(&v);
    assert_eq!(
        q,
        Quantiles {
            min: whole(0),
            q1: Ratio::new(5, 4),
            q2: Ratio::new(10, 4),
            q3: Ratio::new(15, 4),
            max: whole(4),
            outliers: Vec::new(),
        }
    );
}

#[test]
fn quantiles_pass_over_missing_samples() {
    let v = [Some(1), None, Some(3), Some(4), None, Some(0), Some(2)];
    let q = Quantiles::from_slice(&v);
    assert_eq!(q, Quantiles::from_slice(&all(&[0, 1, 2, 3, 4])));
    assert!(q.q2.same(Ratio::new(5, 2)));
}

#[test]
fn quartiles_of_few_values_stop_at_the_last() {
    assert_eq!(quartile_of(&[7], 1), Ratio::new(28, 4));
    assert_eq!(quartile_of(&[7], 3), Ratio::new(28, 4));
    assert_eq!(quartile_of(&[1, 2], 1), Ratio::new(6, 4));
    assert_eq!(quartile_of(&[1, 2], 2), Ratio::new(8, 4));
    assert_eq!(quartile_of(&[1, 2], 3), Ratio::new(8, 4));
    assert_eq!(quartile_of(&[0, 10, 20, 30], 3), Ratio::new(120, 4));
    assert_eq!(quartile_of(&[0, 10, 20, 30], 1), Ratio::new(40, 4));
}

#[test]
fn values_outside_the_fences_are_outliers() {
    let v = all(&[11, 10, 0, 11, 10, 100, 10, 11, 10, 11]);
    let q = Quantiles::from_slice(&v);
    assert_eq!(
        q,
        Quantiles {
            min: whole(10),
            q1: Ratio::new(40, 4),
            q2: Ratio::new(44, 4),
            q3: Ratio::new(44, 4),
            max: whole(11),
            outliers: vec![0, 100],
        }
    );
}

#[test]
fn two_values_have_a_summary() {
    let q = Quantiles::try_from_slice(&all(&[2, 1])).unwrap();
    assert_eq!(
        q,
        Quantiles {
            min: whole(2),
            q1: Ratio::new(6, 4),
            q2: Ratio::new(8, 4),
            q3: Ratio::new(8, 4),
            max: whole(2),
            outliers: vec![1],
        }
    );
}

#[test]
fn samples_without_a_value_inside_the_fences_have_no_summary() {
    assert!(Quantiles::try_from_slice(&[]).is_none());
    assert!(Quantiles::try_from_slice(&[None, None]).is_none());
    assert!(Quantiles::try_from_slice(&all(&[5, 5, 5, 5])).is_none());
    assert!(Quantiles::try_from_slice(&all(&[5])).is_none());
    assert!(Quantiles::try_from_slice(&all(&[1, 3, 4, 0, 2])).is_some());
}

#[test]
fn box_plot_on_three_rows() {
    let mut canvas = Canvas::new();
    canvas.set_x_range(0, 4);
    let q = Quantiles::from_slice(&all(&[1, 3, 4, 0, 2]));
    q.draw_into(&mut canvas, 0).unwrap();
    let text = canvas.to_string();
    let lines: Vec<&str> = text.lines().collect();
    // columns: min 1, q1 25, q2 49, q3 73, max 78
    let edge = format!("{}{}{}", " ".repeat(25), "-".repeat(48), " ".repeat(7));
    let middle = format!(
        " |{}|{}|{}|{}| ",
        "-".repeat(23),
        " ".repeat(23),
        " ".repeat(23),
        "-".repeat(4)
    );
    assert_eq!(lines[0], edge);
    assert_eq!(lines[1], middle);
    assert_eq!(lines[2], edge);
    assert_eq!(lines[3], " ".repeat(80));
}

#[test]
fn box_plot_marks_outliers() {
    let mut canvas = Canvas::new();
    canvas.set_x_bounds(whole(0), whole(158));
    let q = Quantiles::from_slice(&all(&[22, 20, 0, 22, 20, 200, 20, 22, 20, 22]));
    assert_eq!(q.outliers, vec![0, 200]);
    // 200 lies beyond the x-axis: the whiskers and the first outlier are drawn
    let r = q.draw_into(&mut canvas, 4);
    match r {
        Err(CanvasError::OutOfRange(text)) => assert_eq!(text, "0/1 < 200/1 < 158/1"),
        _ => panic!("an outlier beyond the axis must be out of range"),
    }
    assert_eq!(canvas.cell(5, 0), Some(b'+'));
    assert_eq!(canvas.cell(5, 10), Some(b' '));
    assert_eq!(canvas.cell(4, 10), Some(b' '));

    canvas.clear();
    canvas.set_x_bounds(whole(0), whole(316));
    q.draw_into(&mut canvas, 4).unwrap();
    // columns: 0 -> 0, 20 -> 5, 22 -> 5.5 -> 6 (a half goes up), 200 -> 50
    assert_eq!(canvas.cell(5, 0), Some(b'+'));
    assert_eq!(canvas.cell(5, 50), Some(b'+'));
    assert_eq!(canvas.cell(5, 5), Some(b'|'));
    assert_eq!(canvas.cell(5, 6), Some(b'|'));
    assert_eq!(canvas.cell(4, 5), Some(b'-'));
    assert_eq!(canvas.cell(6, 5), Some(b'-'));
    assert_eq!(canvas.cell(4, 6), Some(b' '));
    assert_eq!(canvas.cell(3, 5), Some(b' '));
}

#[test]
fn box_plot_needs_an_x_range() {
    let mut canvas = Canvas::new();
    let q = Quantiles::from_slice(&all(&[1, 3, 4, 0, 2]));
    match q.draw_into(&mut canvas, 0) {
        Err(CanvasError::OutOfRange(text)) => assert_eq!(text, "0/1 < 5/4 < 0/1"),
        _ => panic!("without an x-range nothing can be placed"),
    }
    assert_eq!(canvas.to_string(), Canvas::new().to_string());
}

#[test]
fn the_default_summary_is_zero() {
    let q = Quantiles::default();
    assert_eq!(
        q,
        Quantiles {
            min: whole(0),
            q1: whole(0),
            q2: whole(0),
            q3: whole(0),
            max: whole(0),
            outliers: Vec::new(),
        }
    );
}
