use phtheirichthys::wind::{
    current_ref_time, forecast_runs, decode_wind_blob, find_forecast, forecast_hour, forecast_time,
    next_update_time, ref_time_of, ForecastPick, WindError, GRID_POINTS,
};

#[test]
fn blob_components_are_squared_eighths() {
    let mut bytes = vec![0u8; 2 * GRID_POINTS];
    // first pair of the blob: latitude 90, longitude -180
    bytes[0] = 16;
    bytes[1] = 0xF0;
    // first pair of the last row: latitude -90, longitude -180
    bytes[2 * 180 * 360] = 8;
    bytes[2 * 180 * 360 + 1] = 0x80;
    // second pair of the first row: latitude 90, longitude -179
    bytes[2] = 3;
    let grid = decode_wind_blob(&bytes).unwrap();
    assert_eq!(grid.len(), GRID_POINTS);
    assert_eq!(grid[180 * 360], (256, -256));
    assert_eq!(grid[0], (64, -16384));
    assert_eq!(grid[180 * 360 + 1], (9, 0));
    assert_eq!(grid[1], (0, 0));
}

#[test]
fn short_blob_is_rejected() {
    assert_eq!(decode_wind_blob(&vec![0u8; 2 * GRID_POINTS - 1]).err(), Some(WindError::BadFormat));
}

#[test]
fn forecast_between_two_groups() {
    let valid = vec![0, 10_800, 21_600];
    assert_eq!(
        find_forecast(&valid, 3_660),
        ForecastPick { w1: 0, w2: Some(1), elapsed_minutes: 60, span_minutes: 180 }
    );
    // 3 719 s less a minute is 3 659 s, brought down to 3 600 s
    assert_eq!(
        find_forecast(&valid, 3_719),
        ForecastPick { w1: 0, w2: Some(1), elapsed_minutes: 60, span_minutes: 180 }
    );
}

#[test]
fn forecast_on_a_group() {
    let valid = vec![0, 10_800, 21_600];
    assert_eq!(
        find_forecast(&valid, 60),
        ForecastPick { w1: 0, w2: None, elapsed_minutes: 0, span_minutes: 0 }
    );
}

#[test]
fn forecast_before_first_and_after_last() {
    let valid = vec![0, 10_800, 21_600];
    assert_eq!(
        find_forecast(&valid, -1_000),
        ForecastPick { w1: 0, w2: None, elapsed_minutes: 0, span_minutes: 0 }
    );
    assert_eq!(
        find_forecast(&valid, 30_000),
        ForecastPick { w1: 2, w2: None, elapsed_minutes: 0, span_minutes: 0 }
    );
}

#[test]
fn reference_times() {
    assert_eq!(ref_time_of(1_700_000_000), 1_699_984_800);
    assert_eq!(ref_time_of(-1), -21_600);
    assert_eq!(next_update_time(1_700_000_000), 1_699_997_400);
    assert_eq!(current_ref_time(1_700_000_000), 1_699_984_800);
    assert_eq!(current_ref_time(1_699_985_800), 1_699_963_200);
}

#[test]
fn forecast_hours() {
    assert_eq!(forecast_time(1_699_984_800, 6), 1_700_006_400);
    assert_eq!(forecast_hour(1_699_984_800, 1_700_006_400), 6);
    assert_eq!(forecast_hour(1_699_984_800, 1_700_006_399), 5);
}

#[test]
fn runs_of_a_forecast_group() {
    assert_eq!(forecast_runs(1_700_006_400, &vec![6, 12]), vec![1_699_984_800, 1_699_963_200]);
    assert!(forecast_runs(0, &vec![]).is_empty());
}
