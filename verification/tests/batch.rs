use contagion_grid::aggregate::{completion_metric, lookup_tick, parse_coord};
use contagion_grid::batch::{process_batch, process_query, ParasitePostRequest};
use contagion_grid::grid::{validate_grid, ValidationError, BLOCKER, EMPTY, INFECTED, SUSCEPTIBLE};
use contagion_grid::square;

fn request(room: usize, grid: Vec<Vec<u32>>, indi: Vec<&str>) -> ParasitePostRequest {
    ParasitePostRequest {
        room,
        grid,
        indi: indi.into_iter().map(|s| s.to_string()).collect(),
    }
}

#[test]
fn scenario_three_by_three() {
    let req = request(7, vec![vec![0, 3, 2], vec![0, 1, 1], vec![1, 0, 0]], vec!["0,1", "1,2", "2,0"]);
    let resp = process_query(req).unwrap();
    assert_eq!(resp.room, 7);
    assert_eq!(
        resp.p1,
        vec![
            ("0,1".to_string(), 0),
            ("1,2".to_string(), 2),
            ("2,0".to_string(), -1)
        ]
    );
    // cell (2,0) stays susceptible and unreached, so the grid never completes
    assert_eq!(resp.p2, -1);
    assert_eq!(resp.p3, 1);
    assert_eq!(resp.p4, 1);
}

#[test]
fn scenario_single_empty_cell() {
    let req = request(1, vec![vec![0]], vec!["0,0"]);
    let resp = process_query(req).unwrap();
    assert_eq!(resp.p1, vec![("0,0".to_string(), -1)]);
    assert_eq!(resp.p2, -1);
}

#[test]
fn scenario_single_seed_cell() {
    let req = request(2, vec![vec![3]], vec!["0,0"]);
    let resp = process_query(req).unwrap();
    assert_eq!(resp.p1, vec![("0,0".to_string(), 0)]);
    assert_eq!(resp.p2, 0);
}

#[test]
fn completion_metric_complete_grid() {
    let req = request(3, vec![vec![3, 1], vec![1, 0]], vec![]);
    let resp = process_query(req).unwrap();
    // all susceptible cells are reached; the metric is the largest tick
    assert!(resp.p2 > 0);
}

#[test]
fn no_seed_metric_is_minus_one() {
    let req = request(4, vec![vec![1, 1], vec![0, 2]], vec!["1,1"]);
    let resp = process_query(req).unwrap();
    assert_eq!(resp.p1, vec![("1,1".to_string(), -1)]);
    assert_eq!(resp.p2, -1);
}

#[test]
fn in_bounds_lookup_never_fails() {
    let ticks = vec![vec![0, 1], vec![2, 3]];
    for i in 0..2 {
        for j in 0..2 {
            let coord = format!("{},{}", i, j);
            assert_eq!(lookup_tick(&ticks, &coord), Ok(ticks[i][j]));
        }
    }
}

#[test]
fn out_of_bounds_lookup_always_fails() {
    let ticks = vec![vec![0, 1], vec![2, 3]];
    for coord in ["2,0", "0,2", "9,9", "18446744073709551615,0"] {
        assert_eq!(
            lookup_tick(&ticks, coord),
            Err(ValidationError::CoordinateOutOfBounds)
        );
    }
}

#[test]
fn malformed_coordinates_fail() {
    for bad in ["", ",", "1", "1,", ",1", "a,b", "1,2,3", "1, 2", "-1,0", "+1,2"] {
        assert_eq!(parse_coord(bad), None, "coordinate {:?}", bad);
    }
    assert_eq!(parse_coord("0,0"), Some((0, 0)));
    assert_eq!(parse_coord("12,034"), Some((12, 34)));
    // a value that does not fit in usize is rejected
    assert_eq!(parse_coord("99999999999999999999999999,0"), None);
}

#[test]
fn grid_validation_errors() {
    let no_rows: Vec<Vec<u32>> = vec![];
    assert_eq!(validate_grid(&no_rows), Err(ValidationError::EmptyGrid));
    let no_cols: Vec<Vec<u32>> = vec![vec![]];
    assert_eq!(validate_grid(&no_cols), Err(ValidationError::EmptyGrid));
    assert_eq!(
        validate_grid(&vec![vec![0, 1], vec![0]]),
        Err(ValidationError::JaggedGrid)
    );
    assert_eq!(
        validate_grid(&vec![vec![0, 4]]),
        Err(ValidationError::CellOutOfRange)
    );
    assert_eq!(
        validate_grid(&vec![vec![EMPTY, SUSCEPTIBLE, BLOCKER, INFECTED]]),
        Ok(())
    );
}

#[test]
fn batch_keeps_order_and_rooms() {
    let reqs = vec![
        request(10, vec![vec![3]], vec!["0,0"]),
        request(20, vec![vec![0]], vec!["0,0"]),
    ];
    let resps = process_batch(reqs).unwrap();
    assert_eq!(resps.len(), 2);
    assert_eq!(resps[0].room, 10);
    assert_eq!(resps[0].p1, vec![("0,0".to_string(), 0)]);
    assert_eq!(resps[1].room, 20);
    assert_eq!(resps[1].p1, vec![("0,0".to_string(), -1)]);
}

#[test]
fn batch_fails_as_a_unit() {
    let reqs = vec![
        request(1, vec![vec![3]], vec!["0,0"]),
        request(2, vec![vec![0, 4]], vec![]),
    ];
    assert!(matches!(
        process_batch(reqs),
        Err(ValidationError::CellOutOfRange)
    ));

    let reqs = vec![request(3, vec![vec![3]], vec!["bogus"])];
    assert!(matches!(
        process_batch(reqs),
        Err(ValidationError::MalformedCoordinate)
    ));
}

#[test]
fn metric_uses_original_kinds() {
    // after traversal the converted cells read as infected; the metric must
    // still see which of them were susceptible at the start
    let orig = vec![vec![3, 1]];
    let ticks = vec![vec![0, -1]];
    assert_eq!(completion_metric(&ticks, &orig), -1);
    let reached = vec![vec![0, 1]];
    assert_eq!(completion_metric(&reached, &orig), 1);
}

#[test]
fn square_reports_overflow() {
    assert_eq!(square(0), Some(0));
    assert_eq!(square(3), Some(9));
    assert_eq!(square(-4), Some(16));
    assert_eq!(square(3_037_000_499), Some(3_037_000_499 * 3_037_000_499));
    assert_eq!(square(3_037_000_500), None);
    assert_eq!(square(i64::MIN), None);
}
