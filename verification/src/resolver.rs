//! Batch resolution: from query points to elevations.
//!
//! The resolver walks the batch in order. For each point it asks the index
//! which tile covers it, serves the elevation from the store when the tile is
//! already decoded, and otherwise suspends, handing the caller the locator to
//! decode. The caller decodes — the one thing that takes I/O — and reports
//! back; the resolver caches the result and goes on. One point's miss or one
//! tile's decode failure never aborts the rest of the batch: a point without
//! a covering tile, or whose tile failed to decode in this batch, resolves to
//! the sentinel elevation.

use vstd::prelude::*;

use crate::SENTINEL_MICROS;
use crate::index::TileIndex;
use crate::index::first_cover;
use crate::points::Point;
use crate::points::Points;
use crate::store::TileStore;
use crate::tile::ElevationTile;

verus! {

/// A geographic point with its resolved elevation, in millionths of a degree
/// and of a meter.
#[derive(Clone, Copy, Debug, PartialEq, Eq, Structural)]
pub struct Elevation {
    pub lat: i64,
    pub lon: i64,
    pub elevation: i64,
}

/// An ordered batch of resolved elevations.
#[derive(Clone, Debug)]
pub struct Elevations {
    pub elevations: Vec<Elevation>,
}

/// What the resolver asks of its caller, or the finished batch.
pub enum StepAction {
    /// Decode the tile file with this locator and report back with a
    /// `TileEvent`.
    NeedTile(String),
    /// Every point is resolved, in input order.
    Done(Elevations),
}

/// The caller's answer to a `NeedTile` request.
pub enum TileEvent {
    /// The tile decoded; here it is.
    Loaded(ElevationTile),
    /// The tile could not be decoded. The store is left untouched, so a
    /// later batch may retry; within this batch the tile's points resolve to
    /// the sentinel.
    Failed,
}

/// A resolved entry is right for its point: the nearest sample of the
/// covering tile when that tile is in the store, the sentinel when no tile
/// covers the point or its decode failed in this batch.
pub open spec fn resolved_ok(
    ix: TileIndex,
    st: TileStore,
    failed: Seq<Seq<char>>,
    p: Point,
    e: Elevation,
) -> bool {
    &&& e.lat == p.lat
    &&& e.lon == p.lon
    &&& match first_cover(ix.metas_seq(), p) {
        None => e.elevation == SENTINEL_MICROS,
        Some(k) => {
            let loc = ix.metas_seq()[k].file@;
            if failed.contains(loc) {
                e.elevation == SENTINEL_MICROS
            } else {
                &&& st.contains_loc(loc)
                &&& e.elevation == st.spec_get(loc).spec_elevation(p.lat, p.lon)
            }
        },
    }
}

/// One in-flight batch resolution.
pub struct Resolver {
    points: Vec<Point>,
    pos: usize,
    out: Vec<Elevation>,
    failed: Vec<String>,
    pending: Option<String>,
}

impl Resolver {
    /// The batch being resolved, in input order.
    pub closed spec fn points_seq(self) -> Seq<Point> {
        self.points@
    }

    /// How many points are resolved so far.
    pub closed spec fn pos_spec(self) -> int {
        self.pos as int
    }

    /// The elevations resolved so far, in input order.
    pub closed spec fn out_seq(self) -> Seq<Elevation> {
        self.out@
    }

    /// The locators whose decode failed in this batch.
    pub closed spec fn failed_seq(self) -> Seq<Seq<char>> {
        self.failed.deep_view()
    }

    /// The locator the resolver is waiting on, if any.
    pub closed spec fn pending_loc(self) -> Option<Seq<char>> {
        match self.pending {
            Some(l) => Some(l@),
            None => None,
        }
    }

    /// The session invariant: the store is sound, every resolved point's
    /// entry is right for the store and failure set as they now stand, and a
    /// pending request names the current point's covering tile, not yet
    /// cached and not yet failed.
    pub open spec fn inv(self, ix: TileIndex, st: TileStore) -> bool {
        &&& st.wf()
        &&& 0 <= self.pos_spec() <= self.points_seq().len()
        &&& self.out_seq().len() == self.pos_spec()
        &&& forall|i: int|
            0 <= i < self.pos_spec() ==> resolved_ok(
                ix,
                st,
                self.failed_seq(),
                self.points_seq()[i],
                #[trigger] self.out_seq()[i],
            )
        &&& match self.pending_loc() {
            Some(l) => {
                &&& self.pos_spec() < self.points_seq().len()
                &&& match first_cover(ix.metas_seq(), self.points_seq()[self.pos_spec()]) {
                    Some(k) => ix.metas_seq()[k].file@ == l,
                    None => false,
                }
                &&& !st.contains_loc(l)
                &&& !self.failed_seq().contains(l)
            },
            None => true,
        }
    }

    /// Starts resolving a batch.
    pub fn new(pts: Points) -> (r: Resolver)
        ensures
            r.points_seq() == pts.points@,
            r.pos_spec() == 0,
            r.out_seq().len() == 0,
            r.failed_seq().len() == 0,
            r.pending_loc() is None,
            forall|ix: TileIndex, st: TileStore| st.wf() ==> #[trigger] r.inv(ix, st),
    {
        let r = Resolver {
            points: pts.points,
            pos: 0,
            out: Vec::new(),
            failed: Vec::new(),
            pending: None,
        };
        proof {
            assert forall|ix: TileIndex, st: TileStore| st.wf() implies #[trigger] r.inv(ix, st) by {
                assert(r.failed_seq() =~~= Seq::<Seq<char>>::empty());
            }
        }
        r
    }

    /// Whether a locator already failed in this batch.
    fn failed_contains(&self, loc: &String) -> (r: bool)
        ensures
            r == self.failed_seq().contains(loc@),
    {
        let n = self.failed.len();
        let mut i: usize = 0;
        while i < n
            invariant
                0 <= i <= n,
                n == self.failed_seq().len(),
                forall|j: int| 0 <= j < i ==> (#[trigger] self.failed_seq()[j]) != loc@,
            decreases n - i,
        {
            if self.failed[i] == *loc {
                proof {
                    assert(self.failed_seq()[i as int] == loc@);
                }
                return true;
            }
            proof {
                assert(self.failed_seq()[i as int] == self.failed@[i as int]@);
            }
            i = i + 1;
        }
        false
    }

    /// Resolves points until the batch is done or a tile must be decoded.
    ///
    /// The first call passes no event. A `NeedTile(loc)` return suspends the
    /// batch: `loc` is the covering tile of the current point, not in the
    /// store and not yet failed, so the decode the caller now runs is the
    /// first for `loc` in this batch. The next call reports the outcome: on
    /// `Loaded` the tile is cached — never to be decoded again — and on
    /// `Failed` the locator is marked so the batch never asks for it twice.
    pub fn step(&mut self, ix: &TileIndex, store: &mut TileStore, event: Option<TileEvent>) -> (act:
        StepAction)
        requires
            old(self).inv(*ix, *old(store)),
            (event is Some) <==> (old(self).pending_loc() is Some),
            match event {
                Some(TileEvent::Loaded(t)) => t.wf(),
                _ => true,
            },
        ensures
            final(self).points_seq() == old(self).points_seq(),
            final(store).wf(),
            forall|l: Seq<char>|
                old(store).contains_loc(l) ==> #[trigger] final(store).contains_loc(l)
                    && final(store).spec_get(l) == old(store).spec_get(l),
            forall|l: Seq<char>| #[trigger]
                old(self).failed_seq().contains(l) ==> final(self).failed_seq().contains(l),
            final(self).failed_seq() == (match event {
                Some(TileEvent::Failed) => old(self).failed_seq().push(
                    old(self).pending_loc()->Some_0,
                ),
                _ => old(self).failed_seq(),
            }),
            final(store).locs_seq() == (match event {
                Some(TileEvent::Loaded(t)) => old(store).locs_seq().push(
                    old(self).pending_loc()->Some_0,
                ),
                _ => old(store).locs_seq(),
            }),
            final(store).tiles_seq() == (match event {
                Some(TileEvent::Loaded(t)) => old(store).tiles_seq().push(t),
                _ => old(store).tiles_seq(),
            }),
            match event {
                Some(TileEvent::Loaded(t)) => final(store).contains_loc(
                    old(self).pending_loc()->Some_0,
                ) && final(store).spec_get(old(self).pending_loc()->Some_0) == t,
                _ => true,
            },
            match act {
                StepAction::NeedTile(loc) => {
                    &&& final(self).inv(*ix, *final(store))
                    &&& final(self).pending_loc() == Some(loc@)
                    &&& !final(store).contains_loc(loc@)
                    &&& !final(self).failed_seq().contains(loc@)
                    &&& final(self).pos_spec() < final(self).points_seq().len()
                    &&& match first_cover(
                        ix.metas_seq(),
                        final(self).points_seq()[final(self).pos_spec()],
                    ) {
                        Some(k) => ix.metas_seq()[k].file@ == loc@,
                        None => false,
                    }
                },
                StepAction::Done(evs) => {
                    &&& evs.elevations@.len() == old(self).points_seq().len()
                    &&& forall|i: int|
                        0 <= i < evs.elevations@.len() ==> resolved_ok(
                            *ix,
                            *final(store),
                            final(self).failed_seq(),
                            old(self).points_seq()[i],
                            #[trigger] evs.elevations@[i],
                        )
                },
            },
    {
        let ghost failed0 = old(self).failed_seq();
        // Consume the caller's answer to the pending request.
        if let Some(ev) = event {
            let taken = self.pending.take();
            let ghost old_failed = self.failed_seq();
            let ghost old_st = *store;
            match (taken, ev) {
                (Some(loc), TileEvent::Loaded(tile)) => {
                    let ghost l = loc@;
                    proof {
                        assert(l == old(self).pending_loc()->Some_0);
                    }
                    store.insert(loc, tile);
                    proof {
                        assert forall|i: int| 0 <= i < self.pos_spec() implies resolved_ok(
                            *ix,
                            *store,
                            self.failed_seq(),
                            self.points_seq()[i],
                            #[trigger] self.out_seq()[i],
                        ) by {
                            assert(resolved_ok(
                                *ix,
                                old_st,
                                self.failed_seq(),
                                self.points_seq()[i],
                                self.out_seq()[i],
                            ));
                        }
                    }
                },
                (Some(loc), TileEvent::Failed) => {
                    let ghost l = loc@;
                    proof {
                        assert(l == old(self).pending_loc()->Some_0);
                    }
                    self.failed.push(loc);
                    proof {
                        assert(self.failed_seq() =~~= old_failed.push(l));
                        assert forall|x: Seq<char>| #[trigger]
                            self.failed_seq().contains(x) implies old_failed.contains(x) || x
                            == l by {
                            let w = choose|w: int|
                                0 <= w < self.failed_seq().len() && self.failed_seq()[w] == x;
                            if w < old_failed.len() {
                                assert(old_failed[w] == x);
                            }
                        }
                        assert forall|x: Seq<char>|
                            old_failed.contains(x) implies #[trigger] self.failed_seq().contains(
                            x,
                        ) by {
                            let w = choose|w: int|
                                0 <= w < old_failed.len() && old_failed[w] == x;
                            assert(self.failed_seq()[w] == x);
                        }
                        assert(self.failed_seq()[old_failed.len() as int] == l);
                        assert(self.failed_seq().contains(l));
                        assert forall|i: int| 0 <= i < self.pos_spec() implies resolved_ok(
                            *ix,
                            *store,
                            self.failed_seq(),
                            self.points_seq()[i],
                            #[trigger] self.out_seq()[i],
                        ) by {
                            assert(resolved_ok(
                                *ix,
                                *store,
                                old_failed,
                                self.points_seq()[i],
                                self.out_seq()[i],
                            ));
                            match first_cover(ix.metas_seq(), self.points_seq()[i]) {
                                None => {},
                                Some(k) => {
                                    let li = ix.metas_seq()[k].file@;
                                    if !old_failed.contains(li) && self.failed_seq().contains(li) {
                                        assert(li == l);
                                        assert(store.contains_loc(li));
                                    }
                                },
                            }
                        }
                    }
                },
                _ => {
                    proof {
                        assert(false);
                    }
                },
            }
        }

        // Resolve points until one needs a tile that is not yet decoded.
        let ghost failed1 = self.failed_seq();
        let ghost st1 = *store;
        let n = self.points.len();
        #[verifier::loop_isolation(false)]
        while self.pos < n
            invariant
                n == self.points_seq().len(),
                self.points_seq() == old(self).points_seq(),
                0 <= self.pos_spec() <= n,
                self.out_seq().len() == self.pos_spec(),
                store.wf(),
                self.pending_loc() is None,
                forall|i: int|
                    0 <= i < self.pos_spec() ==> resolved_ok(
                        *ix,
                        *store,
                        self.failed_seq(),
                        self.points_seq()[i],
                        #[trigger] self.out_seq()[i],
                    ),
                forall|l: Seq<char>|
                    old(store).contains_loc(l) ==> #[trigger] store.contains_loc(l)
                        && store.spec_get(l) == old(store).spec_get(l),
                forall|l: Seq<char>| #[trigger]
                    failed0.contains(l) ==> self.failed_seq().contains(l),
                failed0 == old(self).failed_seq(),
                self.failed_seq() == failed1,
                *store == st1,
            decreases n - self.pos_spec(),
        {
            let p = self.points[self.pos];
            match ix.covers(p) {
                None => {
                    self.out.push(Elevation { lat: p.lat, lon: p.lon, elevation: SENTINEL_MICROS });
                    self.pos = self.pos + 1;
                },
                Some(mi) => {
                    let file = &ix.meta(mi).file;
                    if self.failed_contains(file) {
                        self.out.push(
                            Elevation { lat: p.lat, lon: p.lon, elevation: SENTINEL_MICROS },
                        );
                        self.pos = self.pos + 1;
                    } else {
                        let cached = store.get(file);
                        match cached {
                            Some(tile) => {
                                let value = tile.get_elevation(p.lat, p.lon);
                                self.out.push(
                                    Elevation { lat: p.lat, lon: p.lon, elevation: value },
                                );
                                self.pos = self.pos + 1;
                            },
                            None => {
                                let loc = file.clone();
                                let loc2 = file.clone();
                                self.pending = Some(loc2);
                                return StepAction::NeedTile(loc);
                            },
                        }
                    }
                },
            }
        }

        // Every point is resolved: hand the batch over.
        let mut elevations: Vec<Elevation> = Vec::new();
        core::mem::swap(&mut elevations, &mut self.out);
        StepAction::Done(Elevations { elevations })
    }
}

} // verus!
