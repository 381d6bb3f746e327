//! Decoded raster tiles and nearest-sample lookup.
//!
//! A tile holds two one-dimensional coordinate axes (latitudes, longitudes)
//! and a two-dimensional elevation grid indexed `[latIndex][lonIndex]`. The
//! axis arrays are not guaranteed monotonic, so the lookup is an exhaustive
//! linear scan with a strict less-than comparator: the first index achieving
//! the minimum absolute difference wins ties.

use vstd::prelude::*;

verus! {

// ---------------------------------------------------------------------------
// The ndarray arrays that hold a tile's samples, behind trusted wrappers.
// Verus cannot state ndarray's own type bounds, so each array sits in a
// private field of an opaque struct.
// ---------------------------------------------------------------------------

/// A one-dimensional ndarray array of coordinate samples.
#[verifier::external_body]
#[derive(Debug)]
pub struct AxisArray {
    inner: ndarray::Array1<i64>,
}

/// A two-dimensional ndarray array of elevation samples.
#[verifier::external_body]
#[derive(Debug)]
pub struct GridArray {
    inner: ndarray::Array2<i64>,
}

/// The elements of a one-dimensional ndarray array, in index order.
pub uninterp spec fn axis_elems(a: AxisArray) -> Seq<i64>;

/// The elements of a two-dimensional ndarray array, row by row.
pub uninterp spec fn grid_elems(a: GridArray) -> Seq<Seq<i64>>;

impl AxisArray {
    /// Relies on ndarray's `Array1::from_vec`: the array holds exactly the
    /// vector's elements in order. Its only panic, a length above
    /// `isize::MAX`, cannot be reached by a vector of 8-byte elements.
    #[verifier::external_body]
    pub fn from_vec(v: Vec<i64>) -> (a: AxisArray)
        ensures
            axis_elems(a) == v@,
    {
        AxisArray { inner: ndarray::Array1::from_vec(v) }
    }

    /// Relies on ndarray's `ArrayBase::len`: the total number of elements.
    #[verifier::external_body]
    pub fn len(&self) -> (n: usize)
        ensures
            n == axis_elems(*self).len(),
    {
        self.inner.len()
    }

    /// Relies on ndarray's `ArrayBase::get`: `Some` exactly on an in-bounds
    /// index, holding the element there.
    #[verifier::external_body]
    pub fn get(&self, i: usize) -> (x: i64)
        requires
            i < axis_elems(*self).len(),
        ensures
            x == axis_elems(*self)[i as int],
    {
        *self.inner.get(i).unwrap()
    }
}

impl GridArray {
    /// Relies on ndarray's `ArrayBase::from_shape_vec`: with a plain
    /// `(rows, cols)` shape whose product equals the vector's length, it
    /// returns `Ok` of an array holding the vector's elements in row-major
    /// order.
    #[verifier::external_body]
    pub fn from_vec(rows: usize, cols: usize, v: Vec<i64>) -> (g: GridArray)
        requires
            rows * cols == v@.len(),
            v@.len() <= 0x7fffffff,
        ensures
            grid_elems(g).len() == rows,
            forall|i: int| 0 <= i < rows ==> (#[trigger] grid_elems(g)[i]).len() == cols,
            forall|i: int, j: int|
                0 <= i < rows && 0 <= j < cols ==> #[trigger] grid_elems(g)[i][j] == v@[i * cols
                    + j],
    {
        GridArray { inner: ndarray::Array2::from_shape_vec((rows, cols), v).unwrap() }
    }

    /// Relies on ndarray's `ArrayBase::get`: `Some` exactly on an in-bounds
    /// index pair, holding the element there.
    #[verifier::external_body]
    pub fn get(&self, i: usize, j: usize) -> (x: i64)
        requires
            i < grid_elems(*self).len(),
            j < grid_elems(*self)[i as int].len(),
        ensures
            x == grid_elems(*self)[i as int][j as int],
    {
        *self.inner.get((i, j)).unwrap()
    }
}

// ---------------------------------------------------------------------------
// Extrema of an axis.
// ---------------------------------------------------------------------------

/// `m` occurs in `s` and no element of `s` is smaller.
pub open spec fn is_min_of(m: i64, s: Seq<i64>) -> bool {
    &&& s.contains(m)
    &&& forall|i: int| 0 <= i < s.len() ==> m <= #[trigger] s[i]
}

/// `m` occurs in `s` and no element of `s` is larger.
pub open spec fn is_max_of(m: i64, s: Seq<i64>) -> bool {
    &&& s.contains(m)
    &&& forall|i: int| 0 <= i < s.len() ==> m >= #[trigger] s[i]
}

/// Extrema of a non-empty array of samples.
pub trait MinMax {
    spec fn elems(&self) -> Seq<i64>;

    fn min_value(&self) -> (r: i64)
        requires
            self.elems().len() > 0,
        ensures
            is_min_of(r, self.elems()),
    ;

    fn max_value(&self) -> (r: i64)
        requires
            self.elems().len() > 0,
        ensures
            is_max_of(r, self.elems()),
    ;
}

impl MinMax for AxisArray {
    open spec fn elems(&self) -> Seq<i64> {
        axis_elems(*self)
    }

    fn min_value(&self) -> (r: i64) {
        let n = self.len();
        let mut m = self.get(0);
        let mut i: usize = 1;
        while i < n
            invariant
                1 <= i <= n,
                n == axis_elems(*self).len(),
                exists|k: int| 0 <= k < i && axis_elems(*self)[k] == m,
                forall|k: int| 0 <= k < i ==> m <= #[trigger] axis_elems(*self)[k],
            decreases n - i,
        {
            let x = self.get(i);
            if x < m {
                m = x;
            }
            i = i + 1;
        }
        m
    }

    fn max_value(&self) -> (r: i64) {
        let n = self.len();
        let mut m = self.get(0);
        let mut i: usize = 1;
        while i < n
            invariant
                1 <= i <= n,
                n == axis_elems(*self).len(),
                exists|k: int| 0 <= k < i && axis_elems(*self)[k] == m,
                forall|k: int| 0 <= k < i ==> m >= #[trigger] axis_elems(*self)[k],
            decreases n - i,
        {
            let x = self.get(i);
            if x > m {
                m = x;
            }
            i = i + 1;
        }
        m
    }
}

// ---------------------------------------------------------------------------
// Nearest-sample lookup.
// ---------------------------------------------------------------------------

/// Absolute difference between a sample and a target, as a mathematical
/// integer.
pub open spec fn dist(a: i64, t: i64) -> int {
    if a >= t {
        a - t
    } else {
        t - a
    }
}

/// The least index of `s` whose element is nearest to `t`: scanning left to
/// right, a later index replaces an earlier one only when strictly nearer.
pub open spec fn nearest_index(s: Seq<i64>, t: i64) -> int
    recommends
        s.len() > 0,
    decreases s.len(),
{
    if s.len() <= 1 {
        0
    } else {
        let rest = nearest_index(s.drop_last(), t);
        if dist(s.last(), t) < dist(s[rest], t) {
            s.len() - 1
        } else {
            rest
        }
    }
}

/// `i` is an in-bounds index of `s`, no element of `s` is nearer to `t`, and
/// every earlier index is strictly farther.
pub open spec fn is_first_nearest(s: Seq<i64>, t: i64, i: int) -> bool {
    &&& 0 <= i < s.len()
    &&& forall|j: int| 0 <= j < s.len() ==> dist(s[i], t) <= dist(#[trigger] s[j], t)
    &&& forall|j: int| 0 <= j < i ==> dist(#[trigger] s[j], t) > dist(s[i], t)
}

/// The nearest-index scan returns the minimum absolute difference, and among
/// indices achieving it, the smallest; it assumes nothing about the order of
/// the axis elements.
pub proof fn lemma_nearest_index_is_first_nearest(s: Seq<i64>, t: i64)
    requires
        s.len() > 0,
    ensures
        is_first_nearest(s, t, nearest_index(s, t)),
    decreases s.len(),
{
    if s.len() > 1 {
        lemma_nearest_index_is_first_nearest(s.drop_last(), t);
        assert(forall|j: int| 0 <= j < s.len() - 1 ==> s.drop_last()[j] == #[trigger] s[j]);
    }
}

/// Only one index of `s` is both nearest to `t` and first among the nearest.
pub proof fn lemma_first_nearest_unique(s: Seq<i64>, t: i64, i1: int, i2: int)
    requires
        is_first_nearest(s, t, i1),
        is_first_nearest(s, t, i2),
    ensures
        i1 == i2,
{
    if i1 < i2 {
        assert(dist(s[i1], t) > dist(s[i2], t));
        assert(dist(s[i2], t) >= dist(s[i1], t));
    } else if i2 < i1 {
        assert(dist(s[i2], t) > dist(s[i1], t));
        assert(dist(s[i1], t) >= dist(s[i2], t));
    }
}

// ---------------------------------------------------------------------------
// The tile itself.
// ---------------------------------------------------------------------------

/// Why a tile's decoded contents were rejected.
#[derive(Clone, Copy, Debug, PartialEq, Eq, Structural)]
pub enum TileLoadError {
    /// A coordinate axis holds no samples.
    EmptyAxis,
    /// The grid's shape does not match the axes' lengths.
    ShapeMismatch,
    /// The grid holds more samples than the tile representation admits.
    GridTooLarge,
}

/// A decoded in-memory raster tile: two coordinate axes, an elevation grid,
/// and the cached axis extrema used for bounding-box building.
#[derive(Debug)]
pub struct ElevationTile {
    pub data: GridArray,
    pub lats: AxisArray,
    pub lons: AxisArray,
    pub lat_min_max: (i64, i64),
    pub lon_min_max: (i64, i64),
}

impl ElevationTile {
    /// The latitude axis, as a sequence.
    pub open spec fn lats_seq(self) -> Seq<i64> {
        axis_elems(self.lats)
    }

    /// The longitude axis, as a sequence.
    pub open spec fn lons_seq(self) -> Seq<i64> {
        axis_elems(self.lons)
    }

    /// The elevation grid, row by row; row index follows the latitude axis,
    /// column index the longitude axis.
    pub open spec fn grid_seq(self) -> Seq<Seq<i64>> {
        grid_elems(self.data)
    }

    /// Both axes are non-empty, the grid's shape matches them, and the cached
    /// extrema are the true extrema of the axes.
    pub open spec fn wf(self) -> bool {
        &&& self.lats_seq().len() > 0
        &&& self.lons_seq().len() > 0
        &&& self.grid_seq().len() == self.lats_seq().len()
        &&& forall|i: int|
            0 <= i < self.grid_seq().len() ==> (#[trigger] self.grid_seq()[i]).len()
                == self.lons_seq().len()
        &&& is_min_of(self.lat_min_max.0, self.lats_seq())
        &&& is_max_of(self.lat_min_max.1, self.lats_seq())
        &&& is_min_of(self.lon_min_max.0, self.lons_seq())
        &&& is_max_of(self.lon_min_max.1, self.lons_seq())
    }

    /// The grid sample nearest to the queried coordinate.
    pub open spec fn spec_elevation(self, lat: i64, lon: i64) -> i64 {
        self.grid_seq()[nearest_index(self.lats_seq(), lat)][nearest_index(
            self.lons_seq(),
            lon,
        )]
    }

    /// Builds a tile from decoded axes and grid rows, validating the shape:
    /// both axes non-empty, one grid row per latitude sample, one column per
    /// longitude sample.
    pub fn new(lats: Vec<i64>, lons: Vec<i64>, rows: Vec<Vec<i64>>) -> (r: Result<
        ElevationTile,
        TileLoadError,
    >)
        ensures
            match r {
                Ok(t) => {
                    &&& t.wf()
                    &&& t.lats_seq() == lats@
                    &&& t.lons_seq() == lons@
                    &&& t.grid_seq() == rows.deep_view()
                    &&& lats@.len() > 0
                    &&& lons@.len() > 0
                    &&& rows@.len() == lats@.len()
                    &&& lats@.len() * lons@.len() <= 0x7fffffff
                },
                Err(TileLoadError::EmptyAxis) => lats@.len() == 0 || lons@.len() == 0,
                Err(TileLoadError::ShapeMismatch) => {
                    &&& lats@.len() > 0
                    &&& lons@.len() > 0
                    &&& (rows@.len() != lats@.len() || exists|i: int|
                        0 <= i < rows@.len() && (#[trigger] rows@[i])@.len() != lons@.len())
                },
                Err(TileLoadError::GridTooLarge) => {
                    &&& lats@.len() > 0
                    &&& lons@.len() > 0
                    &&& rows@.len() == lats@.len()
                    &&& (forall|i: int|
                        0 <= i < rows@.len() ==> (#[trigger] rows@[i])@.len() == lons@.len())
                    &&& lats@.len() * lons@.len() > 0x7fffffff
                },
            },
    {
        let n_lats = lats.len();
        let n_lons = lons.len();
        if n_lats == 0 || n_lons == 0 {
            return Err(TileLoadError::EmptyAxis);
        }
        if rows.len() != n_lats {
            return Err(TileLoadError::ShapeMismatch);
        }
        let mut i: usize = 0;
        while i < n_lats
            invariant
                0 <= i <= n_lats,
                n_lats == rows@.len(),
                n_lats == lats@.len(),
                n_lons == lons@.len(),
                1 <= n_lats,
                1 <= n_lons,
                forall|k: int| 0 <= k < i ==> (#[trigger] rows@[k])@.len() == n_lons,
            decreases n_lats - i,
        {
            if rows[i].len() != n_lons {
                proof {
                    assert((rows@[i as int])@.len() != lons@.len());
                }
                return Err(TileLoadError::ShapeMismatch);
            }
            i = i + 1;
        }
        let total = match n_lats.checked_mul(n_lons) {
            Some(t) => t,
            None => {
                return Err(TileLoadError::GridTooLarge);
            },
        };
        if total > 0x7fffffff {
            return Err(TileLoadError::GridTooLarge);
        }

        let mut flat: Vec<i64> = Vec::new();
        let mut r: usize = 0;
        while r < n_lats
            invariant
                0 <= r <= n_lats,
                n_lats == rows@.len(),
                n_lons == lons@.len(),
                forall|k: int| 0 <= k < n_lats ==> (#[trigger] rows@[k])@.len() == n_lons,
                flat@.len() == r * n_lons,
                forall|k: int, c: int|
                    0 <= k < r && 0 <= c < n_lons ==> #[trigger] flat@[k * n_lons + c]
                        == rows@[k]@[c],
            decreases n_lats - r,
        {
            let mut c: usize = 0;
            while c < n_lons
                invariant
                    0 <= c <= n_lons,
                    0 <= r < n_lats,
                    n_lats == rows@.len(),
                    n_lons == lons@.len(),
                    forall|k: int| 0 <= k < n_lats ==> (#[trigger] rows@[k])@.len() == n_lons,
                    flat@.len() == r * n_lons + c,
                    forall|k: int, cc: int|
                        0 <= k < r && 0 <= cc < n_lons ==> #[trigger] flat@[k * n_lons + cc]
                            == rows@[k]@[cc],
                    forall|cc: int|
                        0 <= cc < c ==> #[trigger] flat@[r * n_lons + cc] == rows@[r as int]@[cc],
                decreases n_lons - c,
            {
                let x = rows[r][c];
                flat.push(x);
                proof {
                    assert forall|k: int, cc: int|
                        0 <= k < r && 0 <= cc < n_lons implies #[trigger] flat@[k * n_lons + cc]
                        == rows@[k]@[cc] by {
                        assert((k + 1) * n_lons <= r * n_lons) by (nonlinear_arith)
                            requires
                                k + 1 <= r,
                                n_lons >= 0,
                        ;
                        assert(k * n_lons + cc < (k + 1) * n_lons) by (nonlinear_arith)
                            requires
                                0 <= cc < n_lons,
                        ;
                    }
                }
                c = c + 1;
            }
            proof {
                assert((r + 1) * n_lons == r * n_lons + n_lons) by (nonlinear_arith);
                assert forall|k: int, cc: int|
                    0 <= k < r + 1 && 0 <= cc < n_lons implies #[trigger] flat@[k * n_lons + cc]
                    == rows@[k]@[cc] by {
                    if k < r {
                        assert(flat@[k * n_lons + cc] == rows@[k]@[cc]);
                    } else {
                        assert(k == r);
                        assert(k * n_lons + cc == r * n_lons + cc);
                        assert(flat@[r * n_lons + cc] == rows@[r as int]@[cc]);
                    }
                }
            }
            r = r + 1;
        }

        proof {
            assert(flat@.len() == n_lats * n_lons);
        }
        let data = GridArray::from_vec(n_lats, n_lons, flat);
        let lat_arr = AxisArray::from_vec(lats);
        let lon_arr = AxisArray::from_vec(lons);
        let lat_min = lat_arr.min_value();
        let lat_max = lat_arr.max_value();
        let lon_min = lon_arr.min_value();
        let lon_max = lon_arr.max_value();
        let tile = ElevationTile {
            data,
            lats: lat_arr,
            lons: lon_arr,
            lat_min_max: (lat_min, lat_max),
            lon_min_max: (lon_min, lon_max),
        };
        proof {
            assert(tile.grid_seq() =~= rows.deep_view()) by {
                assert forall|i: int| 0 <= i < n_lats implies tile.grid_seq()[i]
                    =~= rows.deep_view()[i] by {
                    assert forall|j: int| 0 <= j < n_lons implies tile.grid_seq()[i][j]
                        == rows@[i]@[j] by {
                        assert(grid_elems(tile.data)[i][j] == flat@[i * n_lons + j]);
                    }
                }
            }
        }
        Ok(tile)
    }

    /// Locates the index in `array` where the absolute difference between
    /// that element and `f` is smallest; the scan is exhaustive, assumes no
    /// ordering of the elements, and keeps the first index on ties.
    pub fn find_closest_index(&self, array: &AxisArray, f: i64) -> (idx: usize)
        requires
            axis_elems(*array).len() > 0,
        ensures
            idx == nearest_index(axis_elems(*array), f),
            is_first_nearest(axis_elems(*array), f, idx as int),
    {
        let n = array.len();
        let mut min: i128 = i64_abs_diff(array.get(0), f);
        let mut min_index: usize = 0;
        let mut i: usize = 1;
        while i < n
            invariant
                1 <= i <= n,
                n == axis_elems(*array).len(),
                0 <= min_index < i,
                min == dist(axis_elems(*array)[min_index as int], f),
                forall|j: int|
                    0 <= j < i ==> min <= dist(#[trigger] axis_elems(*array)[j], f),
                forall|j: int|
                    0 <= j < min_index ==> dist(#[trigger] axis_elems(*array)[j], f) > min,
            decreases n - i,
        {
            let val = array.get(i);
            let d = i64_abs_diff(val, f);
            if d < min {
                min = d;
                min_index = i;
            }
            i = i + 1;
        }
        proof {
            lemma_nearest_index_is_first_nearest(axis_elems(*array), f);
            lemma_first_nearest_unique(
                axis_elems(*array),
                f,
                min_index as int,
                nearest_index(axis_elems(*array), f),
            );
        }
        min_index
    }

    /// The elevation sample nearest to the queried coordinate. An
    /// out-of-range query still returns the nearest edge sample: the scan has
    /// no "no match" outcome on a non-empty axis.
    pub fn get_elevation(&self, lat: i64, lon: i64) -> (e: i64)
        requires
            self.wf(),
        ensures
            e == self.spec_elevation(lat, lon),
    {
        let lat_index = self.find_closest_index(&self.lats, lat);
        let lon_index = self.find_closest_index(&self.lons, lon);
        self.data.get(lat_index, lon_index)
    }
}

/// Absolute difference of two machine integers, computed in a wider type.
fn i64_abs_diff(a: i64, b: i64) -> (d: i128)
    ensures
        d == dist(a, b),
{
    let wide: i128 = (a as i128) - (b as i128);
    if wide < 0 {
        -wide
    } else {
        wide
    }
}

} // verus!
