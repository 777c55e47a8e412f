use gh_univiewer::{
    compose_metrics, finish_pass, render_column, vector_of_leds, DisplayError, Grid, HardwareFault,
    IssueTally, MetricType,
};
use rgb::RGB8;

fn red() -> RGB8 {
    RGB8::new(255, 0, 0)
}

fn blue() -> RGB8 {
    RGB8::new(0, 0, 255)
}

#[test]
fn render_column_rejects_length_mismatch() {
    assert_eq!(render_column(&vec![1, 2], &vec![red()]), Err(DisplayError::LengthMismatch));
    assert_eq!(render_column(&vec![], &vec![red()]), Err(DisplayError::LengthMismatch));
}

#[test]
fn render_column_rejects_overfull_distribution() {
    assert_eq!(render_column(&vec![10, 7], &vec![red(), blue()]), Err(DisplayError::CapacityExceeded));
    assert_eq!(render_column(&vec![u64::MAX, u64::MAX], &vec![red(), blue()]), Err(DisplayError::CapacityExceeded));
}

#[test]
fn render_column_stacks_categories_in_order() {
    let column = render_column(&vec![2, 0, 1], &vec![red(), RGB8::new(1, 2, 3), blue()]).unwrap();
    assert_eq!(column, vec![red(), red(), blue()]);
    let full = render_column(&vec![16], &vec![blue()]).unwrap();
    assert_eq!(full, vec![blue(); 16]);
}

#[test]
fn fill_column_is_bottom_anchored() {
    let mut grid = Grid::new();
    assert_eq!(grid.fill_column(3, &vec![red(), blue()]), Ok(()));
    assert_eq!(grid.pixel(3, 15), Some(red()));
    assert_eq!(grid.pixel(3, 14), Some(blue()));
    for row in 0..14 {
        assert_eq!(grid.pixel(3, row), None);
    }
    assert_eq!(grid.pixel(2, 15), None);
    assert_eq!(grid.pixel(4, 15), None);
}

#[test]
fn fill_column_refuses_what_the_grid_cannot_hold() {
    let mut grid = Grid::new();
    assert_eq!(grid.fill_column(0, &vec![red(); 17]), Err(DisplayError::CapacityExceeded));
    assert_eq!(
        grid.fill_column(16, &vec![red()]),
        Err(DisplayError::HardwareError(HardwareFault::ColumnOutOfRange { column: 16 }))
    );
    assert_eq!(grid.pixel(0, 15), None);
}

#[test]
fn double_width_bar_writes_the_same_column_twice() {
    let mut grid = Grid::new();
    let metrics = vec![MetricType::ColumnRatio { width: 2, values: vec![1, 3], colors: vec![red(), blue()] }];
    assert_eq!(compose_metrics(&mut grid, &metrics), Ok(2));
    let expected = render_column(&vector_of_leds(vec![1, 3]), &vec![red(), blue()]).unwrap();
    assert_eq!(expected.len(), 16);
    for row in 0..16 {
        assert_eq!(grid.pixel(0, row), Some(expected[15 - row]));
        assert_eq!(grid.pixel(1, row), Some(expected[15 - row]));
        assert_eq!(grid.pixel(2, row), None);
    }
    assert_eq!(grid.pixel(0, 15), Some(red()));
    assert_eq!(grid.pixel(0, 12), Some(red()));
    assert_eq!(grid.pixel(0, 11), Some(blue()));
    
    assert_eq!(grid.pixel(1, 0), Some(blue()));
}

#[test]
fn metrics_are_laid_out_side_by_side() {
    let mut grid = Grid::new();
    let metrics = vec![
        MetricType::ColumnRatio { width: 1, values: vec![1], colors: vec![red()] },
        MetricType::ColumnRatio { width: 3, values: vec![0, 0], colors: vec![red(), blue()] },
        MetricType::ColumnRatio { width: 1, values: vec![0, 5], colors: vec![red(), blue()] },
    ];
    assert_eq!(compose_metrics(&mut grid, &metrics), Ok(5));
    assert_eq!(grid.pixel(0, 0), Some(red()));
    assert_eq!(grid.pixel(2, 15), None);
    assert_eq!(grid.pixel(4, 0), Some(blue()));
}

#[test]
fn column_count_is_not_implemented() {
    let mut grid = Grid::new();
    let metrics = vec![MetricType::ColumnCount { width: 1, value: 3 }];
    let composed = compose_metrics(&mut grid, &metrics);
    assert_eq!(composed, Err(DisplayError::NotImplemented));
    // The pass only asks for a flush on success.
    assert!(composed.is_err());
    let after_bar = vec![
        MetricType::ColumnRatio { width: 1, values: vec![1], colors: vec![red()] },
        MetricType::ColumnCount { width: 1, value: 3 },
    ];
    assert_eq!(compose_metrics(&mut Grid::new(), &after_bar), Err(DisplayError::NotImplemented));
}

#[test]
fn composition_errors_abort_the_pass() {
    let mut grid = Grid::new();
    let mismatch = vec![MetricType::ColumnRatio { width: 1, values: vec![1, 2], colors: vec![red()] }];
    assert_eq!(compose_metrics(&mut grid, &mismatch), Err(DisplayError::LengthMismatch));
    let too_wide = vec![MetricType::ColumnRatio { width: 17, values: vec![1], colors: vec![red()] }];
    assert_eq!(
        compose_metrics(&mut Grid::new(), &too_wide),
        Err(DisplayError::HardwareError(HardwareFault::ColumnOutOfRange { column: 16 }))
    );
}

#[test]
fn flush_fault_propagates_unchanged() {
    let fault = HardwareFault::Device("spi write failed".to_string());
    assert_eq!(
        finish_pass(Err(fault)),
        Err(DisplayError::HardwareError(HardwareFault::Device("spi write failed".to_string())))
    );
    assert_eq!(finish_pass(Ok(())), Ok(()));
}

#[test]
fn tally_builds_two_bars() {
    let mut tally = IssueTally::new();
    tally.record_open(true, false);
    tally.record_open(true, true);
    tally.record_open(false, false);
    tally.record_closed(true);
    tally.record_closed(false);
    assert_eq!((tally.open, tally.closed, tally.merged, tally.assigned_open), (3, 2, 1, 1));
    let metrics = tally.metrics();
    assert_eq!(metrics.len(), 2);
    match &metrics[0] {
        MetricType::ColumnRatio { width, values, colors } => {
            assert_eq!(*width, 1);
            assert_eq!(values, &vec![3, 1, 1]);
            assert_eq!(colors, &vec![RGB8::new(0, 255, 0), RGB8::new(0, 0, 255), RGB8::new(191, 119, 246)]);
        }
        MetricType::ColumnCount { .. } => panic!("expected a ratio bar"),
    }
    match &metrics[1] {
        MetricType::ColumnRatio { width, values, colors } => {
            assert_eq!(*width, 1);
            assert_eq!(values, &vec![2, 1]);
            assert_eq!(colors, &vec![RGB8::new(12, 255, 12), RGB8::new(2, 171, 46)]);
        }
        MetricType::ColumnCount { .. } => panic!("expected a ratio bar"),
    }
}

#[test]
fn tally_counts_saturate() {
    let mut tally = IssueTally { open: u32::MAX, closed: u32::MAX, merged: 0, assigned_open: 0 };
    tally.record_open(true, false);
    tally.record_closed(true);
    assert_eq!((tally.open, tally.closed, tally.merged, tally.assigned_open), (u32::MAX, u32::MAX, 1, 1));
}
