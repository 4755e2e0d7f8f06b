use qdplot::error::CanvasError;
use qdplot::mapper::{get_cell, mul_div_round};
use qdplot::ratio::Ratio;

fn whole(v: i64) -> Ratio {
    Ratio::whole(v)
}

#[test]
fn ends_of_the_interval_map_to_the_outer_cells() {
    assert_eq!(get_cell(whole(0), whole(0), whole(10), 11).unwrap(), 0);
    assert_eq!(get_cell(whole(10), whole(0), whole(10), 11).unwrap(), 10);
    assert_eq!(get_cell(whole(-3), whole(-3), whole(7), 80).unwrap(), 0);
    assert_eq!(get_cell(whole(7), whole(-3), whole(7), 80).unwrap(), 79);
}

#[test]
fn values_inside_map_by_their_share_of_the_interval() {
    assert_eq!(get_cell(whole(5), whole(0), whole(10), 11).unwrap(), 5);
    assert_eq!(get_cell(whole(3), whole(0), whole(10), 21).unwrap(), 6);
    // 79 * 1/4 = 19.75
    assert_eq!(get_cell(Ratio::new(1, 4), whole(0), whole(1), 80).unwrap(), 20);
    // 79 * 1/3 = 26.33
    assert_eq!(get_cell(Ratio::new(1, 3), whole(0), whole(1), 80).unwrap(), 26);
}

#[test]
fn a_half_is_rounded_up() {
    // 79 * 1/2 = 39.5
    assert_eq!(get_cell(Ratio::new(1, 2), whole(0), whole(1), 80).unwrap(), 40);
    // 1 * 1/2 = 0.5
    assert_eq!(get_cell(whole(1), whole(0), whole(2), 2).unwrap(), 1);
    // just below the half
    assert_eq!(get_cell(Ratio::new(499, 1000), whole(0), whole(1), 2).unwrap(), 0);
}

#[test]
fn a_single_cell_takes_every_value() {
    assert_eq!(get_cell(whole(0), whole(0), whole(10), 1).unwrap(), 0);
    assert_eq!(get_cell(whole(10), whole(0), whole(10), 1).unwrap(), 0);
}

#[test]
fn bounds_with_different_denominators() {
    // the interval from -1/10 to 11/10, 25 cells: 24 * (0 + 0.1) / 1.2 = 2
    assert_eq!(get_cell(whole(0), Ratio::new(-1, 10), Ratio::new(11, 10), 25).unwrap(), 2);
    // 24 * (1 + 0.1) / 1.2 = 22
    assert_eq!(get_cell(whole(1), Ratio::new(-1, 10), Ratio::new(11, 10), 25).unwrap(), 22);
    // 24 * (3/4 + 0.1) / 1.2 = 17
    assert_eq!(get_cell(Ratio::new(3, 4), Ratio::new(-1, 10), Ratio::new(11, 10), 25).unwrap(), 17);
}

#[test]
fn values_outside_are_out_of_range() {
    let below = get_cell(whole(-1), whole(0), whole(10), 80);
    assert!(matches!(below, Err(CanvasError::OutOfRange(_))));
    let above = get_cell(Ratio::new(101, 10), whole(0), whole(10), 80);
    assert!(matches!(above, Err(CanvasError::OutOfRange(_))));
}

#[test]
fn out_of_range_names_the_value_and_the_bounds() {
    match get_cell(Ratio::new(101, 10), whole(0), Ratio::new(20, 2), 80) {
        Err(CanvasError::OutOfRange(text)) => assert_eq!(text, "0/1 < 101/10 < 20/2"),
        _ => panic!("a value above the interval must be out of range"),
    }
}

#[test]
fn the_map_never_falls() {
    let mut last = 0;
    for n in 0..=1000 {
        let cell = get_cell(Ratio::new(n, 100), whole(0), whole(10), 37).unwrap();
        assert!(cell >= last);
        assert!(cell <= 36);
        last = cell;
    }
    assert_eq!(last, 36);
}

#[test]
fn the_map_reaches_every_cell() {
    for cell in 0..80usize {
        let x = Ratio::new(cell as i64, 79);
        assert_eq!(get_cell(x, whole(0), whole(1), 80).unwrap(), cell);
    }
}

#[test]
fn huge_values_do_not_overflow() {
    let lo = Ratio::new(i64::MIN, 1);
    let hi = Ratio::new(i64::MAX, 1);
    assert_eq!(get_cell(lo, lo, hi, usize::MAX).unwrap(), 0);
    assert_eq!(get_cell(hi, lo, hi, usize::MAX).unwrap(), usize::MAX - 1);
    assert_eq!(get_cell(whole(0), lo, hi, 3).unwrap(), 1);
    assert_eq!(
        get_cell(Ratio::new(i64::MAX, u32::MAX), Ratio::new(i64::MIN, u32::MAX), hi, 3).unwrap(),
        0
    );
}

#[test]
fn scaled_division_rounds_to_nearest() {
    assert_eq!(mul_div_round(10, 1, 3), 3);
    assert_eq!(mul_div_round(10, 2, 3), 7);
    assert_eq!(mul_div_round(7, 1, 2), 4);
    assert_eq!(mul_div_round(0, 5, 9), 0);
    assert_eq!(mul_div_round(u64::MAX, 1, 1), u64::MAX);
    assert_eq!(mul_div_round(u64::MAX, u128::MAX / 2, u128::MAX), u64::MAX / 2);
    assert_eq!(mul_div_round(1000, 0, 7), 0);
}
