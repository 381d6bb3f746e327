use elevation_api::index::TileIndex;
use elevation_api::points::Points;
use elevation_api::resolver::{Elevation, Resolver, StepAction, TileEvent};
use elevation_api::store::TileStore;
use elevation_api::tile::ElevationTile;
use elevation_api::SENTINEL_MICROS;

/// Degrees or meters to the library's fixed-point units (millionths).
fn m(x: f64) -> i64 {
    (x * 1_000_000.0).round() as i64
}

/// The single-sample tile of the end-to-end scenario: lats `[58.5]`,
/// lons `[104.5]`, grid `[[457.0]]`.
fn tile_a() -> ElevationTile {
    ElevationTile::new(vec![m(58.5)], vec![m(104.5)], vec![vec![m(457.0)]]).unwrap()
}

/// The manifest of the end-to-end scenario: one tile "A" covering
/// `[58, 59] x [104, 105]` degrees.
fn index_a() -> TileIndex {
    TileIndex::load(vec![("A".to_string(), vec![m(58.0), m(59.0), m(104.0), m(105.0)])]).unwrap()
}

/// Runs one batch to completion, decoding "A" on demand and counting the
/// decodes.
fn resolve(
    query: &str,
    ix: &TileIndex,
    store: &mut TileStore,
    decodes: &mut usize,
) -> Vec<Elevation> {
    let points = Points::from_str(query).unwrap();
    let mut session = Resolver::new(points);
    let mut act = session.step(ix, store, None);
    loop {
        match act {
            StepAction::NeedTile(loc) => {
                *decodes += 1;
                let event = if loc == "A" {
                    TileEvent::Loaded(tile_a())
                } else {
                    TileEvent::Failed
                };
                act = session.step(ix, store, Some(event));
            }
            StepAction::Done(evs) => return evs.elevations,
        }
    }
}

#[test]
fn test_end_to_end_hit_and_miss() {
    // Query (58.5, 104.5) resolves to 457.0; (10.0, 10.0) to the sentinel.
    let ix = index_a();
    let mut store = TileStore::new();
    let mut decodes = 0;
    let evs = resolve("(58.5,104.5),(10.0,10.0)", &ix, &mut store, &mut decodes);
    assert_eq!(evs.len(), 2);
    assert_eq!(evs[0], Elevation { lat: m(58.5), lon: m(104.5), elevation: m(457.0) });
    assert_eq!(evs[1], Elevation { lat: m(10.0), lon: m(10.0), elevation: SENTINEL_MICROS });
    assert_eq!(SENTINEL_MICROS, m(-9999.0));
}

#[test]
fn test_batch_preserves_length_and_order() {
    let ix = index_a();
    let mut store = TileStore::new();
    let mut decodes = 0;
    let evs = resolve(
        "(10.0,10.0),(58.5,104.5),(20.0,20.0),(58.25,104.25)",
        &ix,
        &mut store,
        &mut decodes,
    );
    assert_eq!(evs.len(), 4);
    assert_eq!(evs[0].lat, m(10.0));
    assert_eq!(evs[1].lat, m(58.5));
    assert_eq!(evs[2].lat, m(20.0));
    assert_eq!(evs[3].lat, m(58.25));
    // Both covered points resolve to tile A's only sample.
    assert_eq!(evs[1].elevation, m(457.0));
    assert_eq!(evs[3].elevation, m(457.0));
}

#[test]
fn test_tile_decoded_exactly_once_per_locator() {
    // Two points routed to the same tile in one batch, then a second batch:
    // the decode runs once and every later request is served from memory.
    let ix = index_a();
    let mut store = TileStore::new();
    let mut decodes = 0;
    let evs = resolve("(58.5,104.5),(58.75,104.75)", &ix, &mut store, &mut decodes);
    assert_eq!(evs.len(), 2);
    assert_eq!(decodes, 1);
    assert_eq!(store.len(), 1);

    let evs = resolve("(58.5,104.5)", &ix, &mut store, &mut decodes);
    assert_eq!(evs[0].elevation, m(457.0));
    assert_eq!(decodes, 1);
    assert_eq!(store.len(), 1);
}

#[test]
fn test_store_serves_cached_tile() {
    let mut store = TileStore::new();
    assert!(store.get(&"A".to_string()).is_none());
    store.insert("A".to_string(), tile_a());
    let cached = store.get(&"A".to_string()).unwrap();
    assert_eq!(cached.get_elevation(m(58.5), m(104.5)), m(457.0));
    assert!(store.get(&"B".to_string()).is_none());
}

#[test]
fn test_decode_failure_fails_only_routed_points_and_is_retryable() {
    // Tile "B" fails to decode: its points get the sentinel, the rest of the
    // batch is intact, and nothing is cached, so a later batch may retry.
    let ix = TileIndex::load(vec![
        ("B".to_string(), vec![m(0.0), m(1.0), m(0.0), m(1.0)]),
        ("A".to_string(), vec![m(58.0), m(59.0), m(104.0), m(105.0)]),
    ])
    .unwrap();
    let mut store = TileStore::new();
    let mut decodes = 0;
    let evs = resolve("(0.5,0.5),(58.5,104.5),(0.25,0.25)", &ix, &mut store, &mut decodes);
    assert_eq!(evs.len(), 3);
    assert_eq!(evs[0].elevation, SENTINEL_MICROS);
    assert_eq!(evs[1].elevation, m(457.0));
    assert_eq!(evs[2].elevation, SENTINEL_MICROS);
    // "B" failed once and was not asked again within the batch; "A" loaded.
    assert_eq!(decodes, 2);
    assert_eq!(store.len(), 1);

    // The failure was not cached: a new batch asks for "B" again.
    let mut decodes_retry = 0;
    let _ = resolve("(0.5,0.5)", &ix, &mut store, &mut decodes_retry);
    assert_eq!(decodes_retry, 1);
}

#[test]
fn test_overlapping_tiles_resolve_through_first_listed() {
    // Two tiles cover the point; the earlier-listed one supplies the value.
    let ix = TileIndex::load(vec![
        ("A".to_string(), vec![m(58.0), m(59.0), m(104.0), m(105.0)]),
        ("C".to_string(), vec![m(58.0), m(59.0), m(104.0), m(105.0)]),
    ])
    .unwrap();
    let mut store = TileStore::new();
    // Pre-load both tiles with different values.
    store.insert("A".to_string(), tile_a());
    store.insert(
        "C".to_string(),
        ElevationTile::new(vec![m(58.5)], vec![m(104.5)], vec![vec![m(1.0)]]).unwrap(),
    );
    let mut decodes = 0;
    let evs = resolve("(58.5,104.5)", &ix, &mut store, &mut decodes);
    assert_eq!(decodes, 0);
    assert_eq!(evs[0].elevation, m(457.0));
}

#[test]
fn test_batch_replay_is_identical() {
    // Replaying a batch over the warmed store returns the same entries and
    // decodes nothing further.
    let ix = index_a();
    let mut store = TileStore::new();
    let mut decodes = 0;
    let first = resolve("(58.5,104.5),(10.0,10.0)", &ix, &mut store, &mut decodes);
    let second = resolve("(58.5,104.5),(10.0,10.0)", &ix, &mut store, &mut decodes);
    assert_eq!(first, second);
    assert_eq!(decodes, 1);
}

#[test]
fn test_points_resolve_independently() {
    // A point's entry depends on that point alone: inserting another point
    // into the batch changes nothing for its neighbours.
    let ix = index_a();
    let mut store = TileStore::new();
    let mut decodes = 0;
    let short = resolve("(58.5,104.5),(58.75,104.75)", &ix, &mut store, &mut decodes);
    let long = resolve("(58.5,104.5),(0.0,0.0),(58.75,104.75)", &ix, &mut store, &mut decodes);
    assert_eq!(short[0], long[0]);
    assert_eq!(short[1], long[2]);
}
