//! The read-only spatial index over tile bounding boxes.
//!
//! The index is an ordered list of tile metadata records, loaded once from a
//! manifest and never mutated afterwards. Containment scans the list in
//! stored order with inclusive bounds, so the first-listed tile always wins
//! when boxes overlap: lookups are deterministic and reproducible.

use vstd::prelude::*;

use crate::points::Point;
use crate::tile::ElevationTile;

verus! {

/// Why a manifest was rejected.
#[derive(Clone, Copy, Debug, PartialEq, Eq, Structural)]
pub enum ManifestError {
    /// The record at this position does not hold exactly four bounds.
    WrongArity { record: usize },
    /// The record at this position has a minimum above its maximum.
    InvertedBounds { record: usize },
}

/// Metadata of one tile file: its locator and the inclusive bounding box it
/// covers, as `[lat_min, lat_max, lon_min, lon_max]` in millionths of a
/// degree.
#[derive(Debug)]
pub struct ElevationTileFileMetaData {
    pub file: String,
    pub coords: [i64; 4],
}

/// The box's minima do not exceed its maxima.
pub open spec fn bbox_ok(m: ElevationTileFileMetaData) -> bool {
    &&& m.coords[0] <= m.coords[1]
    &&& m.coords[2] <= m.coords[3]
}

/// The point lies in the tile's box, bounds inclusive.
pub open spec fn spec_contains(m: ElevationTileFileMetaData, p: Point) -> bool {
    &&& m.coords[0] <= p.lat <= m.coords[1]
    &&& m.coords[2] <= p.lon <= m.coords[3]
}

/// The first index whose tile's box contains the point, scanning in stored
/// order; `None` when no tile covers it.
pub open spec fn first_cover(ms: Seq<ElevationTileFileMetaData>, p: Point) -> Option<int>
    decreases ms.len(),
{
    if ms.len() == 0 {
        None
    } else if spec_contains(ms[0], p) {
        Some(0int)
    } else {
        match first_cover(ms.drop_first(), p) {
            Some(i) => Some(i + 1),
            None => None,
        }
    }
}

/// What `first_cover` answers: a covering index with none earlier, or the
/// word that no index covers.
pub proof fn lemma_first_cover_props(ms: Seq<ElevationTileFileMetaData>, p: Point)
    ensures
        match first_cover(ms, p) {
            Some(i) => {
                &&& 0 <= i < ms.len()
                &&& spec_contains(ms[i], p)
                &&& forall|j: int| 0 <= j < i ==> !spec_contains(#[trigger] ms[j], p)
            },
            None => forall|j: int| 0 <= j < ms.len() ==> !spec_contains(#[trigger] ms[j], p),
        },
    decreases ms.len(),
{
    if ms.len() > 0 && !spec_contains(ms[0], p) {
        lemma_first_cover_props(ms.drop_first(), p);
        assert forall|j: int| 1 <= j < ms.len() implies ms.drop_first()[j - 1] == #[trigger] ms[j] by {}
    }
}

/// Any covering index with none earlier is `first_cover`'s answer.
pub proof fn lemma_first_cover_at(ms: Seq<ElevationTileFileMetaData>, p: Point, i: int)
    requires
        0 <= i < ms.len(),
        spec_contains(ms[i], p),
        forall|j: int| 0 <= j < i ==> !spec_contains(#[trigger] ms[j], p),
    ensures
        first_cover(ms, p) == Some(i),
    decreases ms.len(),
{
    if !spec_contains(ms[0], p) {
        assert forall|j: int| 0 <= j < i - 1 implies !spec_contains(
            #[trigger] ms.drop_first()[j],
            p,
        ) by {
            assert(ms.drop_first()[j] == ms[j + 1]);
        }
        assert(ms.drop_first()[i - 1] == ms[i]);
        lemma_first_cover_at(ms.drop_first(), p, i - 1);
    }
}

/// When an earlier tile covers the point, a later tile is never the answer:
/// on overlap the earlier-listed tile wins.
pub proof fn lemma_covers_earlier_wins(
    ms: Seq<ElevationTileFileMetaData>,
    p: Point,
    i: int,
    j: int,
)
    requires
        0 <= i < j < ms.len(),
        spec_contains(ms[i], p),
    ensures
        first_cover(ms, p) != Some(j),
{
    lemma_first_cover_props(ms, p);
}

/// A raw manifest record that reads as a tile: a locator and exactly four
/// bounds with minima below maxima.
pub open spec fn raw_ok(rec: (String, Vec<i64>)) -> bool {
    &&& rec.1@.len() == 4
    &&& rec.1@[0] <= rec.1@[1]
    &&& rec.1@[2] <= rec.1@[3]
}

/// Builds the manifest record for a decoded tile: its locator and the box
/// spanned by the tile's axis extrema. The record is what a manifest file
/// holds for the tile, so an index built from it routes the tile's own
/// coordinates back to it.
pub fn meta_from_tile(file: String, tile: &ElevationTile) -> (m: ElevationTileFileMetaData)
    requires
        tile.wf(),
    ensures
        m.file@ == file@,
        m.coords@ == seq![
            tile.lat_min_max.0,
            tile.lat_min_max.1,
            tile.lon_min_max.0,
            tile.lon_min_max.1,
        ],
        bbox_ok(m),
{
    let coords: [i64; 4] = [
        tile.lat_min_max.0,
        tile.lat_min_max.1,
        tile.lon_min_max.0,
        tile.lon_min_max.1,
    ];
    proof {
        let lats = tile.lats_seq();
        let i = choose|i: int| 0 <= i < lats.len() && lats[i] == tile.lat_min_max.0;
        assert(tile.lat_min_max.1 >= lats[i]);
        let lons = tile.lons_seq();
        let j = choose|j: int| 0 <= j < lons.len() && lons[j] == tile.lon_min_max.0;
        assert(tile.lon_min_max.1 >= lons[j]);
        assert(coords@ =~= seq![
            tile.lat_min_max.0,
            tile.lat_min_max.1,
            tile.lon_min_max.0,
            tile.lon_min_max.1,
        ]);
    }
    ElevationTileFileMetaData { file, coords }
}

/// The immutable, in-memory list of tile metadata, in manifest order.
#[derive(Debug)]
pub struct TileIndex {
    metas: Vec<ElevationTileFileMetaData>,
}

impl TileIndex {
    /// The records, in stored order.
    pub closed spec fn metas_seq(self) -> Seq<ElevationTileFileMetaData> {
        self.metas@
    }

    /// Every stored box is well-formed.
    pub open spec fn wf(self) -> bool {
        forall|i: int|
            0 <= i < self.metas_seq().len() ==> bbox_ok(#[trigger] self.metas_seq()[i])
    }

    /// Builds the index from raw manifest records, in order. Fails on the
    /// first malformed record: wrong arity, or a minimum above its maximum.
    pub fn load(records: Vec<(String, Vec<i64>)>) -> (r: Result<TileIndex, ManifestError>)
        ensures
            match r {
                Ok(ix) => {
                    &&& ix.wf()
                    &&& ix.metas_seq().len() == records@.len()
                    &&& forall|i: int| 0 <= i < records@.len() ==> raw_ok(#[trigger] records@[i])
                    &&& forall|i: int|
                        0 <= i < records@.len() ==> {
                            &&& (#[trigger] ix.metas_seq()[i]).file@ == records@[i].0@
                            &&& ix.metas_seq()[i].coords@ == records@[i].1@
                        }
                },
                Err(ManifestError::WrongArity { record }) => {
                    &&& 0 <= record < records@.len()
                    &&& records@[record as int].1@.len() != 4
                    &&& forall|j: int| 0 <= j < record ==> raw_ok(#[trigger] records@[j])
                },
                Err(ManifestError::InvertedBounds { record }) => {
                    &&& 0 <= record < records@.len()
                    &&& records@[record as int].1@.len() == 4
                    &&& (records@[record as int].1@[0] > records@[record as int].1@[1]
                        || records@[record as int].1@[2] > records@[record as int].1@[3])
                    &&& forall|j: int| 0 <= j < record ==> raw_ok(#[trigger] records@[j])
                },
            },
    {
        let ghost orig = records@;
        let n_records = records.len();
        let mut rest = records;
        let mut metas: Vec<ElevationTileFileMetaData> = Vec::new();
        let mut k: usize = 0;
        while rest.len() > 0
            invariant
                orig == records@,
                orig.len() == n_records,
                0 <= k <= orig.len(),
                rest@ =~= orig.skip(k as int),
                metas@.len() == k,
                forall|j: int| 0 <= j < k ==> raw_ok(#[trigger] orig[j]),
                forall|j: int| 0 <= j < k ==> bbox_ok(#[trigger] metas@[j]),
                forall|j: int|
                    0 <= j < k ==> {
                        &&& (#[trigger] metas@[j]).file@ == orig[j].0@
                        &&& metas@[j].coords@ == orig[j].1@
                    },
            decreases rest@.len(),
        {
            let (file, bounds) = rest.remove(0);
            proof {
                assert(orig.skip(k as int)[0] == orig[k as int]);
                assert(rest@ =~= orig.skip(k + 1));
            }
            if bounds.len() != 4 {
                return Err(ManifestError::WrongArity { record: k });
            }
            if bounds[0] > bounds[1] || bounds[2] > bounds[3] {
                return Err(ManifestError::InvertedBounds { record: k });
            }
            let coords: [i64; 4] = [bounds[0], bounds[1], bounds[2], bounds[3]];
            proof {
                assert(coords@ =~= bounds@);
            }
            metas.push(ElevationTileFileMetaData { file, coords });
            k = k + 1;
        }
        proof {
            assert(rest@.len() == 0);
            assert(k == orig.len());
        }
        Ok(TileIndex { metas })
    }

    /// Number of tiles in the index.
    pub fn len(&self) -> (n: usize)
        ensures
            n == self.metas_seq().len(),
    {
        self.metas.len()
    }

    /// The record at a position.
    pub fn meta(&self, i: usize) -> (m: &ElevationTileFileMetaData)
        requires
            i < self.metas_seq().len(),
        ensures
            *m == self.metas_seq()[i as int],
    {
        &self.metas[i]
    }

    /// The position of the first tile whose box contains the point, bounds
    /// inclusive; `None` is a miss, not an error. The list is scanned in
    /// stored order, so the answer is a function of the index's contents and
    /// the point alone.
    pub fn covers(&self, p: Point) -> (r: Option<usize>)
        ensures
            match r {
                Some(i) => {
                    &&& first_cover(self.metas_seq(), p) == Some(i as int)
                    &&& i < self.metas_seq().len()
                    &&& spec_contains(self.metas_seq()[i as int], p)
                    &&& forall|j: int|
                        0 <= j < i ==> !spec_contains(#[trigger] self.metas_seq()[j], p)
                },
                None => {
                    &&& first_cover(self.metas_seq(), p) is None
                    &&& forall|j: int|
                        0 <= j < self.metas_seq().len() ==> !spec_contains(
                            #[trigger] self.metas_seq()[j],
                            p,
                        )
                },
            },
    {
        let n = self.metas.len();
        let mut i: usize = 0;
        while i < n
            invariant
                0 <= i <= n,
                n == self.metas@.len(),
                forall|j: int| 0 <= j < i ==> !spec_contains(#[trigger] self.metas@[j], p),
            decreases n - i,
        {
            let m = &self.metas[i];
            if p.lat >= m.coords[0] && p.lat <= m.coords[1] && p.lon >= m.coords[2] && p.lon
                <= m.coords[3] {
                proof {
                    lemma_first_cover_at(self.metas@, p, i as int);
                }
                return Some(i);
            }
            i = i + 1;
        }
        proof {
            lemma_first_cover_props(self.metas@, p);
            if first_cover(self.metas@, p) is Some {
                let w = first_cover(self.metas@, p)->Some_0;
                assert(!spec_contains(self.metas@[w], p));
            }
        }
        None
    }
}

} // verus!
