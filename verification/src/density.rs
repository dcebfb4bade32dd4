//! How often a waveform's line passes over each pixel.
//!
//! For every pixel column the segments of the line that fall into it are
//! marked in a difference array, one step up where a segment begins and one
//! step down after it ends.  The running sum then gives, for every pixel of the
//! column, how many segments cover it.

use crate::chunk_store::{cut, lemma_cut};
use crate::sample::{at_most, below, le, lt, nan, Point, Sample, INFINITY, NEG_INFINITY};
use vstd::prelude::*;

verus! {

// ---------------------------------------------------------------------------
// The model
// ---------------------------------------------------------------------------

/// A pixel row moved into the picture.
pub open spec fn clamped(y: int, height: int) -> int {
    if y < 0 {
        0
    } else if y >= height {
        height - 1
    } else {
        y
    }
}

/// The lowest pixel row that segment `i` covers.
pub open spec fn seg_low(y_px: Seq<i32>, i: int, height: int) -> int {
    clamped(
        if y_px[i] <= y_px[i + 1] {
            y_px[i] as int
        } else {
            y_px[i + 1] as int
        },
        height,
    )
}

/// The highest pixel row that segment `i` covers.
pub open spec fn seg_high(y_px: Seq<i32>, i: int, height: int) -> int {
    clamped(
        if y_px[i] <= y_px[i + 1] {
            y_px[i + 1] as int
        } else {
            y_px[i] as int
        },
        height,
    )
}

/// How many of the segments from `start` up to `end` cover a pixel row.
pub open spec fn covering(y_px: Seq<i32>, start: int, end: int, py: int, height: int) -> int
    decreases end - start,
{
    if start >= end {
        0
    } else {
        covering(y_px, start, end - 1, py, height) + if seg_low(y_px, end - 1, height) <= py
            <= seg_high(y_px, end - 1, height) {
            1int
        } else {
            0int
        }
    }
}

/// Which points come before an instant.
pub open spec fn points_before(points: Seq<Point>, x: Sample) -> Seq<bool> {
    Seq::new(points.len(), |i: int| below(points[i].t, x))
}

/// Which points come before an instant or at it.
pub open spec fn points_by(points: Seq<Point>, x: Sample) -> Seq<bool> {
    Seq::new(points.len(), |i: int| at_most(points[i].t, x))
}

/// The segments that fall into a pixel column: the first one, and the one after
/// the last one.  The last point begins no segment.
pub open spec fn column_segments(points: Seq<Point>, edges: (Sample, Sample)) -> (int, int) {
    let n = points.len() as int;
    let end = cut(points_by(points, edges.1), 0, n);
    (
        cut(points_before(points, edges.0), 0, n),
        if end < n {
            end
        } else {
            n - 1
        },
    )
}

/// The running sum of a difference array.
pub open spec fn prefix(diff: Seq<i32>, n: int) -> int
    decreases n,
{
    if n <= 0 {
        0
    } else {
        prefix(diff, n - 1) + diff[n - 1]
    }
}

// ---------------------------------------------------------------------------
// Facts about the model
// ---------------------------------------------------------------------------

proof fn lemma_prefix_update(diff: Seq<i32>, k: int, v: i32, n: int)
    requires
        0 <= k < diff.len(),
        0 <= n <= diff.len(),
    ensures
        prefix(diff.update(k, v), n) == prefix(diff, n) + if k < n {
            v - diff[k]
        } else {
            0
        },
    decreases n,
{
    if n > 0 {
        lemma_prefix_update(diff, k, v, n - 1);
    }
}

proof fn lemma_covering_bounded(y_px: Seq<i32>, start: int, end: int, py: int, height: int)
    requires
        start <= end,
    ensures
        0 <= covering(y_px, start, end, py, height) <= end - start,
    decreases end - start,
{
    if start < end {
        lemma_covering_bounded(y_px, start, end - 1, py, height);
    }
}

/// A segment covers the pixel rows between its ends, whichever end comes first.
/// An end outside the picture is drawn at the border, so a segment that lies
/// above or below the picture covers the border alone.
pub proof fn law_segment_covers(y_px: Seq<i32>, i: int, py: int, height: int)
    requires
        0 <= i < y_px.len() - 1,
        0 <= py < height,
    ensures
        ({
            let (a, b) = (y_px[i], y_px[i + 1]);
            covering(y_px, i, i + 1, py, height) == if (a <= py <= b) || (b <= py <= a) || (py == 0
                && a < 0 && b < 0) || (py == height - 1 && a >= height && b >= height) {
                1int
            } else {
                0int
            }
        }),
{
    assert(covering(y_px, i, i, py, height) == 0);
}

/// The counts of a run of segments add up: they are those of its first part and
/// of the rest.  A run without segments covers nothing.
pub proof fn law_covering_adds_up(
    y_px: Seq<i32>,
    start: int,
    mid: int,
    end: int,
    py: int,
    height: int,
)
    requires
        start <= mid <= end,
    ensures
        covering(y_px, start, end, py, height) == covering(y_px, start, mid, py, height) + covering(
            y_px,
            mid,
            end,
            py,
            height,
        ),
        covering(y_px, start, start, py, height) == 0,
    decreases end - mid,
{
    if mid < end {
        law_covering_adds_up(y_px, start, mid, end - 1, py, height);
    }
}

/// The picture of a segment does not depend on its direction: a line drawn from
/// its end to its beginning covers the same pixels.
pub proof fn law_direction_free(y_px: Seq<i32>, z_px: Seq<i32>, i: int, j: int, py: int, height: int)
    requires
        0 <= i < y_px.len() - 1,
        0 <= j < z_px.len() - 1,
        z_px[j] == y_px[i + 1],
        z_px[j + 1] == y_px[i],
    ensures
        covering(y_px, i, i + 1, py, height) == covering(z_px, j, j + 1, py, height),
{
    assert(covering(y_px, i, i, py, height) == 0);
    assert(covering(z_px, j, j, py, height) == 0);
}

/// The segments of a pixel column are those that begin in it: of points in time
/// order, all but the last one whose instants lie between the column's sides,
/// the sides included.
pub proof fn law_column_segments(points: Seq<Point>, edges: (Sample, Sample), i: int)
    requires
        forall|a: int, b: int|
            0 <= a <= b < points.len() ==> at_most((#[trigger] points[a]).t, (#[trigger] points[b]).t),
        !nan(edges.0),
        !nan(edges.1),
        0 <= i < points.len(),
    ensures
        ({
            let (start, end) = column_segments(points, edges);
            start <= i < end <==> i < points.len() - 1 && at_most(edges.0, points[i].t) && at_most(
                points[i].t,
                edges.1,
            )
        }),
{
    let n = points.len() as int;
    let (before, by) = (points_before(points, edges.0), points_by(points, edges.1));
    lemma_cut(before, 0, n);
    lemma_cut(by, 0, n);
    assert(points[i].t == points[i].t && at_most(points[i].t, points[i].t));
    let (start, end) = (cut(before, 0, n), cut(by, 0, n));
    assert(i < start ==> before[i]);
    assert(i < end ==> by[i]);
    if start <= i {
        assert(!before[start]);
        assert(at_most(points[start].t, points[start].t));
        assert(at_most(points[start].t, points[i].t));
    }
    if end <= i {
        assert(!by[end]);
        assert(at_most(points[end].t, points[end].t));
        assert(at_most(points[end].t, points[i].t));
    }
}

proof fn lemma_prefix_zero(diff: Seq<i32>, n: int)
    requires
        0 <= n <= diff.len(),
        forall|k: int| 0 <= k < diff.len() ==> diff[k] == 0,
    ensures
        prefix(diff, n) == 0,
    decreases n,
{
    if n > 0 {
        lemma_prefix_zero(diff, n - 1);
    }
}

// ---------------------------------------------------------------------------
// Rendering
// ---------------------------------------------------------------------------

fn clamp_row(y: i32, height: usize) -> (r: usize)
    requires
        1 <= height <= i32::MAX,
    ensures
        r == clamped(y as int, height as int),
{
    if y < 0 {
        0
    } else if y as usize >= height {
        height - 1
    } else {
        y as usize
    }
}

/// Finds the segments that fall into a pixel column.
fn find_segments(points: &[Point], edges: (Sample, Sample)) -> (r: (usize, usize))
    requires
        points@.len() > 0,
    ensures
        (r.0 as int, r.1 as int) == column_segments(points@, edges),
        r.1 < points@.len(),
{
    let n: usize = points.len();
    let ghost before = points_before(points@, edges.0);
    let ghost by = points_by(points@, edges.1);
    let mut lo: usize = 0;
    let mut hi: usize = n;
    while lo < hi
        invariant
            lo <= hi <= n,
            n == points@.len(),
            before == points_before(points@, edges.0),
            cut(before, lo as int, hi as int) == cut(before, 0, n as int),
        decreases hi - lo,
    {
        let mid: usize = lo + (hi - lo) / 2;
        if lt(points[mid].t, edges.0) {
            lo = mid + 1;
        } else {
            hi = mid;
        }
    }
    let start: usize = lo;
    lo = 0;
    hi = n;
    while lo < hi
        invariant
            lo <= hi <= n,
            n == points@.len(),
            by == points_by(points@, edges.1),
            cut(by, lo as int, hi as int) == cut(by, 0, n as int),
        decreases hi - lo,
    {
        let mid: usize = lo + (hi - lo) / 2;
        if le(points[mid].t, edges.1) {
            lo = mid + 1;
        } else {
            hi = mid;
        }
    }
    if lo < n {
        (start, lo)
    } else {
        (start, n - 1)
    }
}

/// How many segments cover each pixel of one column.
pub fn column_density(y_px: &[i32], start: usize, end: usize, height: usize) -> (counts: Vec<u32>)
    requires
        1 <= height <= i32::MAX,
        end < y_px@.len(),
        y_px@.len() <= i32::MAX,
    ensures
        counts@.len() == height,
        forall|py: int|
            0 <= py < height ==> (#[trigger] counts@[py]) == covering(
                y_px@,
                start as int,
                end as int,
                py,
                height as int,
            ),
{
    let ghost y = y_px@;
    let ghost h = height as int;
    let mut diff: Vec<i32> = Vec::new();
    let mut k: usize = 0;
    while k <= height
        invariant
            k <= height + 1,
            height <= i32::MAX,
            diff@.len() == k,
            forall|j: int| 0 <= j < k ==> diff@[j] == 0,
        decreases height + 1 - k,
    {
        diff.push(0);
        k += 1;
    }
    proof {
        assert forall|py: int| 0 <= py < h implies #[trigger] prefix(diff@, py + 1) == covering(
            y,
            start as int,
            start as int,
            py,
            h,
        ) by {
            lemma_prefix_zero(diff@, py + 1);
        }
    }
    let mut i: usize = start;
    while i < end
        invariant
            start <= i,
            i <= end || i == start,
            end < y.len(),
            y == y_px@,
            y.len() <= i32::MAX,
            h == height,
            1 <= height <= i32::MAX,
            diff@.len() == height + 1,
            forall|j: int|
                0 <= j < diff@.len() ==> -(i - start) <= #[trigger] diff@[j] <= i - start,
            forall|py: int|
                0 <= py < h ==> #[trigger] prefix(diff@, py + 1) == covering(
                    y,
                    start as int,
                    i as int,
                    py,
                    h,
                ),
        decreases end - i,
    {
        let ya: i32 = y_px[i];
        let yb: i32 = y_px[i + 1];
        let lo: usize = clamp_row(
            if ya <= yb {
                ya
            } else {
                yb
            },
            height,
        );
        let hi: usize = clamp_row(
            if ya <= yb {
                yb
            } else {
                ya
            },
            height,
        );
        let ghost d0 = diff@;
        let up: i32 = diff[lo];
        diff.set(lo, up + 1);
        let ghost d1 = diff@;
        let down: i32 = diff[hi + 1];
        diff.set(hi + 1, down - 1);
        proof {
            assert(lo <= hi);
            assert forall|py: int| 0 <= py < h implies #[trigger] prefix(diff@, py + 1) == covering(
                y,
                start as int,
                i + 1,
                py,
                h,
            ) by {
                assert(prefix(d0, py + 1) == covering(y, start as int, i as int, py, h));
                lemma_prefix_update(d0, lo as int, (up + 1) as i32, py + 1);
                lemma_prefix_update(d1, hi + 1, (down - 1) as i32, py + 1);
            }
        }
        i += 1;
    }
    proof {
        if start > end {
            assert forall|py: int| 0 <= py < h implies #[trigger] prefix(diff@, py + 1) == covering(
                y,
                start as int,
                end as int,
                py,
                h,
            ) by {
                assert(prefix(diff@, py + 1) == covering(y, start as int, i as int, py, h));
            }
        }
    }
    let mut counts: Vec<u32> = Vec::new();
    let mut density: i32 = 0;
    let mut py: usize = 0;
    while py < height
        invariant
            py <= height,
            h == height,
            diff@.len() == height + 1,
            density == prefix(diff@, py as int),
            counts@.len() == py,
            end < y.len(),
            y.len() <= i32::MAX,
            y == y_px@,
            forall|p: int|
                0 <= p < h ==> #[trigger] prefix(diff@, p + 1) == covering(
                    y,
                    start as int,
                    end as int,
                    p,
                    h,
                ),
            forall|p: int|
                0 <= p < py ==> (#[trigger] counts@[p]) == covering(
                    y,
                    start as int,
                    end as int,
                    p,
                    h,
                ),
        decreases height - py,
    {
        proof {
            assert(prefix(diff@, py + 1) == covering(y, start as int, end as int, py as int, h));
            if start <= end {
                lemma_covering_bounded(y, start as int, end as int, py as int, h);
            }
        }
        density = density + diff[py];
        counts.push(density as u32);
        py += 1;
    }
    counts
}

/// How many segments cover each pixel of a picture, row by row.  `edges` are
/// the instants at the two sides of each pixel column, and `y_px` the pixel
/// rows of the points.
pub fn compute_density(
    points: &[Point],
    y_px: &[i32],
    edges: &[(Sample, Sample)],
    width: usize,
    height: usize,
) -> (result: Vec<u32>)
    requires
        1 <= points@.len() <= i32::MAX,
        y_px@.len() == points@.len(),
        edges@.len() == width,
        1 <= height <= i32::MAX,
        width * height <= usize::MAX,
    ensures
        result@.len() == width * height,
        forall|px: int, py: int|
            0 <= px < width && 0 <= py < height ==> #[trigger] pixel(result@, width as int, px, py)
                == {
                let (start, end) = column_segments(points@, edges@[px]);
                covering(y_px@, start, end, py, height as int)
            },
{
    let mut columns: Vec<Vec<u32>> = Vec::new();
    let mut px: usize = 0;
    while px < width
        invariant
            px <= width,
            columns@.len() == px,
            1 <= points@.len() <= i32::MAX,
            y_px@.len() == points@.len(),
            edges@.len() == width,
            1 <= height <= i32::MAX,
            forall|c: int| 0 <= c < px ==> (#[trigger] columns@[c])@.len() == height,
            forall|c: int, py: int|
                0 <= c < px && 0 <= py < height ==> #[trigger] columns@[c]@[py] == {
                    let (start, end) = column_segments(points@, edges@[c]);
                    covering(y_px@, start, end, py, height as int)
                },
        decreases width - px,
    {
        let (start, end) = find_segments(points, edges[px]);
        columns.push(column_density(y_px, start, end, height));
        px += 1;
    }
    let mut result: Vec<u32> = Vec::new();
    let mut py: usize = 0;
    assert(0 * width == 0);
    while py < height
        invariant
            py <= height,
            columns@.len() == width,
            forall|c: int| 0 <= c < width ==> (#[trigger] columns@[c])@.len() == height,
            result@.len() == py * width,
            forall|r: int, c: int|
                0 <= c < width && 0 <= r < py ==> #[trigger] pixel(result@, width as int, c, r)
                    == columns@[c]@[r],
        decreases height - py,
    {
        let ghost before = result@;
        let mut c: usize = 0;
        while c < width
            invariant
                c <= width,
                py < height,
                columns@.len() == width,
                forall|c: int| 0 <= c < width ==> (#[trigger] columns@[c])@.len() == height,
                before.len() == py * width,
                result@.len() == py * width + c,
                forall|k: int| 0 <= k < before.len() ==> result@[k] == before[k],
                forall|k: int|
                    0 <= k < c ==> result@[py * width + k] == #[trigger] columns@[k]@[py as int],
            decreases width - c,
        {
            result.push(columns[c][py]);
            c += 1;
        }
        assert((py + 1) * width == py * width + width) by (nonlinear_arith);
        assert forall|r: int, c: int| 0 <= c < width && 0 <= r < py + 1 implies #[trigger] pixel(
            result@,
            width as int,
            c,
            r,
        ) == columns@[c]@[r] by {
            if r < py {
                assert(pixel(before, width as int, c, r) == columns@[c]@[r]);
                assert(0 <= r * width + c < py * width) by (nonlinear_arith)
                    requires
                        0 <= r < py,
                        0 <= c < width,
                ;
            } else {
                assert(result@[py * width + c] == columns@[c]@[py as int]);
            }
        }
        py += 1;
    }
    assert(height * width == width * height) by (nonlinear_arith);
    assert forall|px: int, py: int| 0 <= px < width && 0 <= py < height implies #[trigger] pixel(
        result@,
        width as int,
        px,
        py,
    ) == {
        let (start, end) = column_segments(points@, edges@[px]);
        covering(y_px@, start, end, py, height as int)
    } by {
        assert(columns@[px]@[py] == {
            let (start, end) = column_segments(points@, edges@[px]);
            covering(y_px@, start, end, py, height as int)
        });
    }
    result
}

/// A pixel of a picture that is stored row by row.
pub open spec fn pixel(image: Seq<u32>, width: int, px: int, py: int) -> u32 {
    image[py * width + px]
}

/// The largest count of a picture, at least one.
pub fn peak_count(density: &[u32]) -> (m: u32)
    ensures
        m >= 1,
        forall|i: int| 0 <= i < density@.len() ==> (#[trigger] density@[i]) <= m,
        m > 1 ==> density@.contains(m),
{
    let mut m: u32 = 1;
    let mut i: usize = 0;
    while i < density.len()
        invariant
            i <= density@.len(),
            m >= 1,
            forall|k: int| 0 <= k < i ==> (#[trigger] density@[k]) <= m,
            m > 1 ==> density@.contains(m),
        decreases density@.len() - i,
    {
        if density[i] > m {
            m = density[i];
            assert(density@[i as int] == m);
        }
        i += 1;
    }
    m
}

// ---------------------------------------------------------------------------
// When a picture can be used again
// ---------------------------------------------------------------------------

/// What a picture was rendered for.
#[derive(Clone, Copy, Debug, PartialEq, Eq, Structural)]
pub struct CachedState {
    pub n_points: usize,
    pub x_min: Sample,
    pub x_max: Sample,
    pub y_min: Sample,
    pub y_max: Sample,
    pub width: usize,
    pub height: usize,
}

impl CachedState {
    /// What is noted while there is no picture.
    pub fn new() -> (s: CachedState)
        ensures
            s == (CachedState {
                n_points: 0,
                x_min: INFINITY,
                x_max: NEG_INFINITY,
                y_min: 0,
                y_max: 0,
                width: 0,
                height: 0,
            }),
    {
        CachedState {
            n_points: 0,
            x_min: INFINITY,
            x_max: NEG_INFINITY,
            y_min: 0,
            y_max: 0,
            width: 0,
            height: 0,
        }
    }

    /// Whether a picture can be shown again: the points, the range of values
    /// and the size are the same, and the instants wanted lie inside those
    /// rendered.
    pub fn serves(&self, wanted: &CachedState) -> (b: bool)
        ensures
            b == (self.n_points == wanted.n_points && at_most(self.x_min, wanted.x_min) && at_most(
                wanted.x_max,
                self.x_max,
            ) && self.y_min == wanted.y_min && self.y_max == wanted.y_max && self.width
                == wanted.width && self.height == wanted.height),
    {
        self.n_points == wanted.n_points && le(self.x_min, wanted.x_min) && le(
            wanted.x_max,
            self.x_max,
        ) && self.y_min == wanted.y_min && self.y_max == wanted.y_max && self.width == wanted.width
            && self.height == wanted.height
    }

    /// Whether there is anything to render: a line, a picture with an area, and
    /// ranges that are not empty.
    pub fn drawable(&self) -> (b: bool)
        ensures
            b == (self.n_points >= 2 && self.width > 0 && self.height > 0 && !at_most(
                self.x_max,
                self.x_min,
            ) && !at_most(self.y_max, self.y_min)),
    {
        self.n_points >= 2 && self.width > 0 && self.height > 0 && !le(self.x_max, self.x_min)
            && !le(self.y_max, self.y_min)
    }
}

/// A picture stored row by row has its rows one after the other.
pub proof fn law_pixel(image: Seq<u32>, width: int, px: int, py: int)
    requires
        0 <= px < width,
    ensures
        pixel(image, width, px, py) == image[width * py + px],
{
    assert(width * py == py * width) by (nonlinear_arith);
}

} // verus!
