use elevation_api::tile::{AxisArray, ElevationTile, MinMax, TileLoadError};

/// Degrees or meters to the library's fixed-point units (millionths).
fn m(x: f64) -> i64 {
    (x * 1_000_000.0).round() as i64
}

fn tile(lats: Vec<i64>, lons: Vec<i64>, grid: Vec<Vec<i64>>) -> ElevationTile {
    ElevationTile::new(lats, lons, grid).unwrap()
}

#[test]
fn test_find_closest_index_prefers_first_on_ties() {
    // 15 is equally far from 10 and 20: the lower index wins.
    let t = tile(vec![0], vec![10, 20], vec![vec![1, 2]]);
    let axis = AxisArray::from_vec(vec![10, 20]);
    assert_eq!(t.find_closest_index(&axis, 15), 0);
    assert_eq!(t.find_closest_index(&axis, 16), 1);
    assert_eq!(t.find_closest_index(&axis, 14), 0);
}

#[test]
fn test_find_closest_index_duplicate_distances() {
    // Several elements at the same distance: the first of them is returned.
    let t = tile(vec![0], vec![10], vec![vec![1]]);
    let axis = AxisArray::from_vec(vec![7, 3, 5, 5, 7]);
    assert_eq!(t.find_closest_index(&axis, 5), 2);
    assert_eq!(t.find_closest_index(&axis, 6), 0);
    assert_eq!(t.find_closest_index(&axis, 4), 1);
}

#[test]
fn test_find_closest_index_non_monotonic_axis() {
    // The axis is not sorted; the scan must still find the nearest element.
    let t = tile(vec![0], vec![10], vec![vec![1]]);
    let axis = AxisArray::from_vec(vec![5, 1, 3, 2]);
    assert_eq!(t.find_closest_index(&axis, 2), 3);
    assert_eq!(t.find_closest_index(&axis, 1), 1);
    assert_eq!(t.find_closest_index(&axis, 100), 0);
    assert_eq!(t.find_closest_index(&axis, -7), 1);
}

#[test]
fn test_get_elevation_nearest_sample() {
    let t = tile(
        vec![m(58.0), m(58.5), m(59.0)],
        vec![m(104.0), m(105.0)],
        vec![vec![m(100.0), m(200.0)], vec![m(300.0), m(400.0)], vec![m(500.0), m(600.0)]],
    );
    assert_eq!(t.get_elevation(m(58.5), m(104.0)), m(300.0));
    assert_eq!(t.get_elevation(m(58.6), m(104.9)), m(400.0));
    assert_eq!(t.get_elevation(m(59.0), m(105.0)), m(600.0));
}

#[test]
fn test_get_elevation_row_major_orientation() {
    // Row index follows the latitude axis, column index the longitude axis.
    let t = tile(vec![0, 1], vec![0, 1], vec![vec![10, 20], vec![30, 40]]);
    assert_eq!(t.get_elevation(0, 0), 10);
    assert_eq!(t.get_elevation(0, 1), 20);
    assert_eq!(t.get_elevation(1, 0), 30);
    assert_eq!(t.get_elevation(1, 1), 40);
}

#[test]
fn test_get_elevation_out_of_range_clamps_to_edge() {
    // An out-of-range query still returns the nearest edge sample.
    let t = tile(vec![0, 1000], vec![0, 1000], vec![vec![1, 2], vec![3, 4]]);
    assert_eq!(t.get_elevation(-50_000, -50_000), 1);
    assert_eq!(t.get_elevation(2_000_000, 2_000_000), 4);
}

#[test]
fn test_tile_extrema() {
    let t = tile(vec![3, 1, 2], vec![9, 7, 8], vec![vec![0, 0, 0]; 3]);
    assert_eq!(t.lat_min_max, (1, 3));
    assert_eq!(t.lon_min_max, (7, 9));
}

#[test]
fn test_min_max_values_of_axis() {
    let axis = AxisArray::from_vec(vec![4, -2, 9, 0]);
    assert_eq!(axis.min_value(), -2);
    assert_eq!(axis.max_value(), 9);
}

#[test]
fn test_tile_rejects_empty_axis() {
    assert_eq!(
        ElevationTile::new(vec![], vec![1], vec![]).unwrap_err(),
        TileLoadError::EmptyAxis
    );
    assert_eq!(
        ElevationTile::new(vec![1], vec![], vec![vec![]]).unwrap_err(),
        TileLoadError::EmptyAxis
    );
}

#[test]
fn test_tile_rejects_shape_mismatch() {
    // One grid row per latitude sample.
    assert_eq!(
        ElevationTile::new(vec![1, 2], vec![1], vec![vec![0]]).unwrap_err(),
        TileLoadError::ShapeMismatch
    );
    // One column per longitude sample.
    assert_eq!(
        ElevationTile::new(vec![1], vec![1, 2], vec![vec![0]]).unwrap_err(),
        TileLoadError::ShapeMismatch
    );
}
