//! The descriptor of a point set: a vector of 113 binary64 values.
//!
//! Entries 0 to 5 are the means and the standard deviations of the three
//! coordinates. They are rounding arithmetic, which the caller does and hands in
//! as `Moments`. Entries 6 to 11 are the least and the greatest x, y and value,
//! entry 12 is the number of points, and entries 13 to 112 are the occupancy
//! counts of a ten by ten grid, row by row. Those are comparisons and counting,
//! and they are done here.
use crate::error::EngineError;
use crate::ieee::{Double, Single, COUNT_LIMIT, SINGLE_ONE};
use vstd::prelude::*;

verus! {

/// Number of entries of a descriptor.
pub const FEATURE_LENGTH: usize = 113;

/// Number of bins along each axis of the occupancy grid.
pub const GRID_SIZE: usize = 10;

/// A point of an image: a position and the value measured there.
#[derive(Clone, Copy, Debug, PartialEq, Eq, Structural)]
pub struct Point {
    pub x: Single,
    pub y: Single,
    pub value: Single,
}

/// The means and the population standard deviations of the three coordinates
/// of a point set, as the caller computed them.
#[derive(Clone, Copy, Debug, PartialEq, Eq, Structural)]
pub struct Moments {
    pub mean_x: Double,
    pub mean_y: Double,
    pub mean_value: Double,
    pub deviation_x: Double,
    pub deviation_y: Double,
    pub deviation_value: Double,
}

/// The least and the greatest of each coordinate of a point set.
#[derive(Clone, Copy, Debug, PartialEq, Eq, Structural)]
pub struct Extent {
    pub x_min: Single,
    pub x_max: Single,
    pub y_min: Single,
    pub y_max: Single,
    pub value_min: Single,
    pub value_max: Single,
}

/// The eleven edges of the ten bins along x, and those along y. Bin `i` of an
/// axis reaches from edge `i` up to, but not including, edge `i + 1`.
#[derive(Clone, Copy, Debug, PartialEq, Eq)]
pub struct GridEdges {
    pub x: [Single; 11],
    pub y: [Single; 11],
}

impl Point {
    /// None of the three coordinates is a NaN.
    pub open spec fn spec_is_number(self) -> bool {
        !self.x.spec_is_nan() && !self.y.spec_is_nan() && !self.value.spec_is_nan()
    }

    /// None of the three coordinates is a NaN.
    #[verifier::when_used_as_spec(spec_is_number)]
    pub fn is_number(self) -> (r: bool)
        ensures
            r == self.spec_is_number(),
    {
        !self.x.is_nan() && !self.y.is_nan() && !self.value.is_nan()
    }
}

/// Every point of the sequence has numbers for coordinates.
pub open spec fn all_numbers(points: Seq<Point>) -> bool {
    forall|i: int| 0 <= i < points.len() ==> (#[trigger] points[i]).spec_is_number()
}

/// The x coordinates of the points, in the points' order.
pub open spec fn xs(points: Seq<Point>) -> Seq<Single> {
    points.map_values(|p: Point| p.x)
}

/// The y coordinates of the points, in the points' order.
pub open spec fn ys(points: Seq<Point>) -> Seq<Single> {
    points.map_values(|p: Point| p.y)
}

/// The values of the points, in the points' order.
pub open spec fn values(points: Seq<Point>) -> Seq<Single> {
    points.map_values(|p: Point| p.value)
}

/// The least value of a sequence, and among equal ones (the two zeros) the
/// one that comes first.
pub open spec fn lowest(s: Seq<Single>) -> Single
    decreases s.len(),
{
    if s.len() == 0 {
        Single { bits: 0 }
    } else if s.len() == 1 {
        s[0]
    } else if s.last().spec_lt(lowest(s.drop_last())) {
        s.last()
    } else {
        lowest(s.drop_last())
    }
}

/// The greatest value of a sequence, and among equal ones (the two zeros) the
/// one that comes last.
pub open spec fn highest(s: Seq<Single>) -> Single
    decreases s.len(),
{
    if s.len() == 0 {
        Single { bits: 0 }
    } else if s.len() == 1 {
        s[0]
    } else if s.last().spec_lt(highest(s.drop_last())) {
        highest(s.drop_last())
    } else {
        s.last()
    }
}

/// The extent of a point set.
pub open spec fn extent_of(points: Seq<Point>) -> Extent {
    Extent {
        x_min: lowest(xs(points)),
        x_max: highest(xs(points)),
        y_min: lowest(ys(points)),
        y_max: highest(ys(points)),
        value_min: lowest(values(points)),
        value_max: highest(values(points)),
    }
}

/// Finds the least and the greatest of each coordinate. The caller needs them
/// to lay the grid over the points, and the descriptor holds them.
pub fn extent(points: &Vec<Point>) -> (r: Result<Extent, EngineError>)
    requires
        all_numbers(points@),
    ensures
        points.len() == 0 ==> r == Err::<Extent, EngineError>(EngineError::EmptyInput),
        points.len() > 0 ==> r == Ok::<Extent, EngineError>(extent_of(points@)),
{
    if points.len() == 0 {
        return Err(EngineError::EmptyInput);
    }
    let first = points[0];
    let mut found = Extent {
        x_min: first.x,
        x_max: first.x,
        y_min: first.y,
        y_max: first.y,
        value_min: first.value,
        value_max: first.value,
    };
    let mut i: usize = 1;
    assert(points@.take(1).len() == 1);
    while i < points.len()
        invariant
            1 <= i <= points.len(),
            found == extent_of(points@.take(i as int)),
        decreases points.len() - i,
    {
        let p = points[i];
        proof {
            let before = points@.take(i as int);
            let now = points@.take(i + 1);
            assert(now.drop_last() == before);
            assert(xs(now).drop_last() == xs(before));
            assert(ys(now).drop_last() == ys(before));
            assert(values(now).drop_last() == values(before));
            assert(xs(now).last() == p.x);
            assert(ys(now).last() == p.y);
            assert(values(now).last() == p.value);
        }
        if p.x.lt(found.x_min) {
            found.x_min = p.x;
        }
        if !p.x.lt(found.x_max) {
            found.x_max = p.x;
        }
        if p.y.lt(found.y_min) {
            found.y_min = p.y;
        }
        if !p.y.lt(found.y_max) {
            found.y_max = p.y;
        }
        if p.value.lt(found.value_min) {
            found.value_min = p.value;
        }
        if !p.value.lt(found.value_max) {
            found.value_max = p.value;
        }
        i = i + 1;
    }
    assert(points@.take(points.len() as int) == points@);
    Ok(found)
}

/// The width of the bins along one axis: a tenth of the axis' range, which the
/// caller computed, and one where the range is empty.
pub fn bin_width(min: Single, max: Single, tenth: Single) -> (r: Single)
    ensures
        r == if min.spec_lt(max) {
            tenth
        } else {
            Single { bits: SINGLE_ONE }
        },
{
    if min.lt(max) {
        tenth
    } else {
        Single { bits: SINGLE_ONE }
    }
}

/// The point lies in bin `i` along x and bin `j` along y. Each bin holds its
/// lower edge and not its upper one, so a point on the last edge of an axis
/// lies in no bin.
pub open spec fn in_cell(p: Point, grid: GridEdges, i: int, j: int) -> bool {
    &&& p.x.spec_ge(grid.x[i])
    &&& p.x.spec_lt(grid.x[i + 1])
    &&& p.y.spec_ge(grid.y[j])
    &&& p.y.spec_lt(grid.y[j + 1])
}

/// Number of points in cell `(i, j)` of the grid.
pub open spec fn cell_count(points: Seq<Point>, grid: GridEdges, i: int, j: int) -> nat
    decreases points.len(),
{
    if points.len() == 0 {
        0
    } else {
        cell_count(points.drop_last(), grid, i, j) + if in_cell(points.last(), grid, i, j) {
            1nat
        } else {
            0nat
        }
    }
}

/// No cell holds more points than there are.
pub proof fn law_cell_count_is_bounded(points: Seq<Point>, grid: GridEdges, i: int, j: int)
    ensures
        cell_count(points, grid, i, j) <= points.len(),
    decreases points.len(),
{
    if points.len() > 0 {
        law_cell_count_is_bounded(points.drop_last(), grid, i, j);
    }
}

/// Counts the points in one cell of the grid.
pub fn count_in_cell(points: &Vec<Point>, grid: &GridEdges, i: usize, j: usize) -> (r: usize)
    requires
        i < GRID_SIZE,
        j < GRID_SIZE,
    ensures
        r == cell_count(points@, *grid, i as int, j as int),
        r <= points.len(),
{
    let x_start = grid.x[i];
    let x_end = grid.x[i + 1];
    let y_start = grid.y[j];
    let y_end = grid.y[j + 1];
    let mut count: usize = 0;
    let mut k: usize = 0;
    while k < points.len()
        invariant
            k <= points.len(),
            count <= k,
            count == cell_count(points@.take(k as int), *grid, i as int, j as int),
            i < GRID_SIZE,
            j < GRID_SIZE,
            x_start == grid.x[i as int],
            x_end == grid.x[i + 1],
            y_start == grid.y[j as int],
            y_end == grid.y[j + 1],
        decreases points.len() - k,
    {
        let p = points[k];
        assert(points@.take(k + 1).drop_last() == points@.take(k as int));
        if p.x.ge(x_start) && p.x.lt(x_end) && p.y.ge(y_start) && p.y.lt(y_end) {
            count = count + 1;
        }
        k = k + 1;
    }
    assert(points@.take(points.len() as int) == points@);
    count
}

/// The least and the greatest value of a sequence are values of it.
pub proof fn lemma_extremes_are_members(s: Seq<Single>)
    requires
        s.len() > 0,
    ensures
        s.contains(lowest(s)),
        s.contains(highest(s)),
    decreases s.len(),
{
    if s.len() == 1 {
        assert(s[0] == lowest(s));
        assert(s[0] == highest(s));
    } else {
        let rest = s.drop_last();
        lemma_extremes_are_members(rest);
        let i = choose|i: int| 0 <= i < rest.len() && rest[i] == lowest(rest);
        assert(s[i] == lowest(rest));
        let j = choose|j: int| 0 <= j < rest.len() && rest[j] == highest(rest);
        assert(s[j] == highest(rest));
        assert(s[s.len() - 1] == s.last());
    }
}

/// Entry `k` of the descriptor of a point set.
pub open spec fn feature_at(points: Seq<Point>, moments: Moments, grid: GridEdges, k: int) -> Double {
    let extent = extent_of(points);
    if k == 0 {
        moments.mean_x
    } else if k == 1 {
        moments.mean_y
    } else if k == 2 {
        moments.mean_value
    } else if k == 3 {
        moments.deviation_x
    } else if k == 4 {
        moments.deviation_y
    } else if k == 5 {
        moments.deviation_value
    } else if k == 6 {
        extent.x_min.widened()
    } else if k == 7 {
        extent.x_max.widened()
    } else if k == 8 {
        extent.y_min.widened()
    } else if k == 9 {
        extent.y_max.widened()
    } else if k == 10 {
        extent.value_min.widened()
    } else if k == 11 {
        extent.value_max.widened()
    } else if k == 12 {
        Double::of_count(points.len())
    } else {
        Double::of_count(cell_count(points, grid, (k - 13) / 10, (k - 13) % 10))
    }
}

/// The descriptor of a point set, given its moments and the edges of its grid.
pub open spec fn features(points: Seq<Point>, moments: Moments, grid: GridEdges) -> Seq<Double> {
    Seq::new(FEATURE_LENGTH as nat, |k: int| feature_at(points, moments, grid, k))
}

/// Builds the descriptor of a point set. It fails on no points at all, with
/// `EmptyInput`, and on nothing else.
pub fn extract_features_from_points(points: &Vec<Point>, moments: &Moments, grid: &GridEdges) -> (r:
    Result<Vec<Double>, EngineError>)
    requires
        all_numbers(points@),
        points.len() < COUNT_LIMIT,
    ensures
        points.len() == 0 ==> r == Err::<Vec<Double>, EngineError>(EngineError::EmptyInput),
        points.len() > 0 ==> r is Ok && r->Ok_0@ == features(points@, *moments, *grid),
        r matches Ok(v) ==> v.len() == FEATURE_LENGTH && v[12] == Double::of_count(
            points.len() as nat,
        ),
{
    let found = match extent(points) {
        Ok(found) => found,
        Err(e) => {
            return Err(e);
        },
    };
    proof {
        lemma_extremes_are_members(xs(points@));
        lemma_extremes_are_members(ys(points@));
        lemma_extremes_are_members(values(points@));
        let a = choose|a: int| 0 <= a < points.len() && xs(points@)[a] == found.x_min;
        assert(points[a].spec_is_number());
        let b = choose|b: int| 0 <= b < points.len() && xs(points@)[b] == found.x_max;
        assert(points[b].spec_is_number());
        let c = choose|c: int| 0 <= c < points.len() && ys(points@)[c] == found.y_min;
        assert(points[c].spec_is_number());
        let d = choose|d: int| 0 <= d < points.len() && ys(points@)[d] == found.y_max;
        assert(points[d].spec_is_number());
        let e = choose|e: int| 0 <= e < points.len() && values(points@)[e] == found.value_min;
        assert(points[e].spec_is_number());
        let f = choose|f: int| 0 <= f < points.len() && values(points@)[f] == found.value_max;
        assert(points[f].spec_is_number());
    }
    let mut out: Vec<Double> = Vec::new();
    out.push(moments.mean_x);
    out.push(moments.mean_y);
    out.push(moments.mean_value);
    out.push(moments.deviation_x);
    out.push(moments.deviation_y);
    out.push(moments.deviation_value);
    out.push(found.x_min.widen());
    out.push(found.x_max.widen());
    out.push(found.y_min.widen());
    out.push(found.y_max.widen());
    out.push(found.value_min.widen());
    out.push(found.value_max.widen());
    out.push(Double::from_count(points.len() as u64));
    let mut i: usize = 0;
    while i < GRID_SIZE
        invariant
            i <= GRID_SIZE,
            points.len() < COUNT_LIMIT,
            out.len() == 13 + 10 * i,
            forall|k: int|
                0 <= k < out.len() ==> out[k] == feature_at(points@, *moments, *grid, k),
        decreases GRID_SIZE - i,
    {
        let mut j: usize = 0;
        while j < GRID_SIZE
            invariant
                i < GRID_SIZE,
                j <= GRID_SIZE,
                points.len() < COUNT_LIMIT,
                out.len() == 13 + 10 * i + j,
                forall|k: int|
                    0 <= k < out.len() ==> out[k] == feature_at(points@, *moments, *grid, k),
            decreases GRID_SIZE - j,
        {
            let count = count_in_cell(points, grid, i, j);
            out.push(Double::from_count(count as u64));
            j = j + 1;
        }
        i = i + 1;
    }
    assert(out@ =~= features(points@, *moments, *grid));
    Ok(out)
}

} // verus!
