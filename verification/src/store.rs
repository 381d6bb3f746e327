//! The cache of decoded tiles.
//!
//! A store maps a file locator to the tile decoded from it. Entries, once
//! inserted, are immutable and never evicted; a locator that failed to decode
//! is simply absent, so a later call may retry it. The store itself performs
//! no decoding: the resolver asks for a missing tile and the caller hands the
//! decoded result back, so each locator is decoded at most once.

use vstd::prelude::*;

use crate::tile::ElevationTile;

verus! {

/// Cache mapping file locators to decoded tiles, in insertion order.
pub struct TileStore {
    locs: Vec<String>,
    tiles: Vec<ElevationTile>,
}

impl TileStore {
    /// The cached locators, in insertion order.
    pub closed spec fn locs_seq(self) -> Seq<Seq<char>> {
        self.locs.deep_view()
    }

    /// The cached tiles, in insertion order.
    pub closed spec fn tiles_seq(self) -> Seq<ElevationTile> {
        self.tiles@
    }

    /// One tile per locator, locators unique, every tile well-formed.
    pub open spec fn wf(self) -> bool {
        &&& self.locs_seq().len() == self.tiles_seq().len()
        &&& forall|i: int, j: int|
            0 <= i < j < self.locs_seq().len() ==> (#[trigger] self.locs_seq()[i])
                != (#[trigger] self.locs_seq()[j])
        &&& forall|i: int| 0 <= i < self.tiles_seq().len() ==> (#[trigger] self.tiles_seq()[i]).wf()
    }

    /// Whether a tile is cached for this locator.
    pub open spec fn contains_loc(self, loc: Seq<char>) -> bool {
        exists|i: int| 0 <= i < self.locs_seq().len() && self.locs_seq()[i] == loc
    }

    /// The position of a cached locator.
    pub closed spec fn loc_index(self, loc: Seq<char>) -> int {
        choose|i: int| 0 <= i < self.locs_seq().len() && self.locs_seq()[i] == loc
    }

    /// The tile cached for a locator.
    pub open spec fn spec_get(self, loc: Seq<char>) -> ElevationTile {
        self.tiles_seq()[self.loc_index(loc)]
    }

    /// In a well-formed store, the position paired with a cached locator is
    /// the one it was inserted at.
    pub proof fn lemma_loc_index_is(self, loc: Seq<char>, i: int)
        requires
            self.wf(),
            0 <= i < self.locs_seq().len(),
            self.locs_seq()[i] == loc,
        ensures
            self.loc_index(loc) == i,
            self.spec_get(loc) == self.tiles_seq()[i],
    {
        let j = self.loc_index(loc);
        assert(0 <= j < self.locs_seq().len() && self.locs_seq()[j] == loc);
        if i < j {
            assert(self.locs_seq()[i] != self.locs_seq()[j]);
        } else if j < i {
            assert(self.locs_seq()[j] != self.locs_seq()[i]);
        }
    }

    /// An empty store.
    pub fn new() -> (s: TileStore)
        ensures
            s.wf(),
            s.locs_seq().len() == 0,
            forall|l: Seq<char>| !s.contains_loc(l),
    {
        TileStore { locs: Vec::new(), tiles: Vec::new() }
    }

    /// Number of cached tiles.
    pub fn len(&self) -> (n: usize)
        ensures
            n == self.locs_seq().len(),
    {
        self.locs.len()
    }

    /// The cached tile for a locator, if a decode already ran for it:
    /// repeated requests are served from memory, never decoded again.
    pub fn get(&self, loc: &String) -> (r: Option<&ElevationTile>)
        requires
            self.wf(),
        ensures
            match r {
                Some(t) => {
                    &&& self.contains_loc(loc@)
                    &&& *t == self.spec_get(loc@)
                    &&& t.wf()
                },
                None => !self.contains_loc(loc@),
            },
    {
        let n = self.locs.len();
        let mut i: usize = 0;
        while i < n
            invariant
                0 <= i <= n,
                self.wf(),
                n == self.locs_seq().len(),
                forall|j: int| 0 <= j < i ==> (#[trigger] self.locs_seq()[j]) != loc@,
            decreases n - i,
        {
            if self.locs[i] == *loc {
                proof {
                    assert(self.locs_seq()[i as int] == loc@);
                    self.lemma_loc_index_is(loc@, i as int);
                }
                return Some(&self.tiles[i]);
            }
            proof {
                assert(self.locs_seq()[i as int] == self.locs@[i as int]@);
            }
            i = i + 1;
        }
        None
    }

    /// Caches the tile decoded for a not-yet-cached locator. Existing
    /// entries stay untouched: an entry, once inserted, is immutable.
    pub fn insert(&mut self, loc: String, tile: ElevationTile)
        requires
            old(self).wf(),
            !old(self).contains_loc(loc@),
            tile.wf(),
        ensures
            final(self).wf(),
            final(self).locs_seq() == old(self).locs_seq().push(loc@),
            final(self).tiles_seq() == old(self).tiles_seq().push(tile),
            final(self).contains_loc(loc@),
            final(self).spec_get(loc@) == tile,
            forall|l: Seq<char>| #[trigger]
                final(self).contains_loc(l) == (old(self).contains_loc(l) || l == loc@),
            forall|l: Seq<char>|
                old(self).contains_loc(l) ==> #[trigger] final(self).spec_get(l) == old(
                    self,
                ).spec_get(l),
    {
        let ghost old_locs = self.locs_seq();
        let ghost old_tiles = self.tiles_seq();
        self.locs.push(loc);
        self.tiles.push(tile);
        proof {
            assert(self.locs_seq() =~~= old_locs.push(loc@));
            assert(self.tiles_seq() =~= old_tiles.push(tile));
            let n = old_locs.len() as int;
            assert(self.locs_seq()[n] == loc@);
            assert forall|i: int, j: int|
                0 <= i < j < self.locs_seq().len() implies (#[trigger] self.locs_seq()[i])
                != (#[trigger] self.locs_seq()[j]) by {
                if j < n {
                } else {
                    assert(self.locs_seq()[i] == old_locs[i]);
                    assert(old(self).contains_loc(old_locs[i]) || !(0 <= i < n));
                }
            }
            self.lemma_loc_index_is(loc@, n);
            assert forall|l: Seq<char>| #[trigger]
                self.contains_loc(l) == (old(self).contains_loc(l) || l == loc@) by {
                if old(self).contains_loc(l) {
                    let w = choose|i: int| 0 <= i < old_locs.len() && old_locs[i] == l;
                    assert(self.locs_seq()[w] == l);
                }
                if self.contains_loc(l) && l != loc@ {
                    let w = choose|i: int|
                        0 <= i < self.locs_seq().len() && self.locs_seq()[i] == l;
                    assert(w < n);
                    assert(old_locs[w] == l);
                }
            }
            assert forall|l: Seq<char>| old(self).contains_loc(l) implies #[trigger] self.spec_get(
                l,
            ) == old(self).spec_get(l) by {
                let w = choose|i: int| 0 <= i < old_locs.len() && old_locs[i] == l;
                assert(self.locs_seq()[w] == l);
                self.lemma_loc_index_is(l, w);
                old(self).lemma_loc_index_is(l, w);
            }
        }
    }
}

} // verus!
