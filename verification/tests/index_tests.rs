use elevation_api::index::{meta_from_tile, ManifestError, TileIndex};
use elevation_api::points::Point;
use elevation_api::tile::ElevationTile;

/// Degrees to the library's fixed-point units (millionths).
fn m(x: f64) -> i64 {
    (x * 1_000_000.0).round() as i64
}

fn record(file: &str, a: f64, b: f64, c: f64, d: f64) -> (String, Vec<i64>) {
    (file.to_string(), vec![m(a), m(b), m(c), m(d)])
}

#[test]
fn test_tile_index_load() {
    let ix = TileIndex::load(vec![record("n58e104.nc", 58.0, 59.0, 104.0, 105.0)]).unwrap();
    assert_eq!(ix.len(), 1);
    let meta = ix.meta(0);
    assert_eq!(meta.file, "n58e104.nc");
    assert_eq!(meta.coords[0], m(58.0));
    assert_eq!(meta.coords[1], m(59.0));
    assert_eq!(meta.coords[2], m(104.0));
    assert_eq!(meta.coords[3], m(105.0));
}

#[test]
fn test_tile_index_load_wrong_arity() {
    let err = TileIndex::load(vec![
        record("a", 0.0, 1.0, 0.0, 1.0),
        ("b".to_string(), vec![1, 2, 3]),
    ])
    .unwrap_err();
    assert_eq!(err, ManifestError::WrongArity { record: 1 });
}

#[test]
fn test_tile_index_load_inverted_bounds() {
    let err = TileIndex::load(vec![record("a", 2.0, 1.0, 0.0, 1.0)]).unwrap_err();
    assert_eq!(err, ManifestError::InvertedBounds { record: 0 });
    let err = TileIndex::load(vec![record("a", 0.0, 1.0, 5.0, 4.0)]).unwrap_err();
    assert_eq!(err, ManifestError::InvertedBounds { record: 0 });
}

#[test]
fn test_covers_inclusive_bounds() {
    let ix = TileIndex::load(vec![record("a", 58.0, 59.0, 104.0, 105.0)]).unwrap();
    assert_eq!(ix.covers(Point { lat: m(58.0), lon: m(104.0) }), Some(0));
    assert_eq!(ix.covers(Point { lat: m(59.0), lon: m(105.0) }), Some(0));
    assert_eq!(ix.covers(Point { lat: m(58.5), lon: m(104.5) }), Some(0));
    assert_eq!(ix.covers(Point { lat: m(57.9), lon: m(104.5) }), None);
    assert_eq!(ix.covers(Point { lat: m(58.5), lon: m(105.1) }), None);
}

#[test]
fn test_covers_first_listed_tile_wins_on_overlap() {
    // Two tiles cover the same box: the earlier-listed one always answers.
    let ix = TileIndex::load(vec![
        record("first", 58.0, 59.0, 104.0, 105.0),
        record("second", 58.0, 59.0, 104.0, 105.0),
    ])
    .unwrap();
    let p = Point { lat: m(58.5), lon: m(104.5) };
    assert_eq!(ix.covers(p), Some(0));
    assert_eq!(ix.meta(0).file, "first");
}

#[test]
fn test_covers_repeatable() {
    // Two calls with the same point on an unmodified index agree.
    let ix = TileIndex::load(vec![
        record("a", 0.0, 10.0, 0.0, 10.0),
        record("b", 5.0, 15.0, 5.0, 15.0),
    ])
    .unwrap();
    for (lat, lon) in [(7.0, 7.0), (12.0, 12.0), (20.0, 20.0)] {
        let p = Point { lat: m(lat), lon: m(lon) };
        assert_eq!(ix.covers(p), ix.covers(p));
    }
    assert_eq!(ix.covers(Point { lat: m(7.0), lon: m(7.0) }), Some(0));
    assert_eq!(ix.covers(Point { lat: m(12.0), lon: m(12.0) }), Some(1));
}

#[test]
fn test_meta_from_tile_spans_axis_extrema() {
    let tile = ElevationTile::new(
        vec![m(58.0), m(59.0)],
        vec![m(104.0), m(105.0)],
        vec![vec![0, 0], vec![0, 0]],
    )
    .unwrap();
    let meta = meta_from_tile("n58e104.nc".to_string(), &tile);
    assert_eq!(meta.file, "n58e104.nc");
    assert_eq!(meta.coords, [m(58.0), m(59.0), m(104.0), m(105.0)]);
}
