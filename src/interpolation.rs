use vstd::prelude::*;

use crate::frac::{line_den, line_num, normalized, on_line, ratio_le, same_ratio, Frac};

verus! {

broadcast use vstd::seq_lib::group_to_multiset_ensures;

/// Lexicographic order on sample pairs: by x, then by y.
pub open spec fn pair_le(a: (i32, i32), b: (i32, i32)) -> bool {
    a.0 < b.0 || (a.0 == b.0 && a.1 <= b.1)
}

pub open spec fn pairs_sorted(s: Seq<(i32, i32)>) -> bool {
    forall|i: int, j: int| 0 <= i < j < s.len() ==> pair_le(#[trigger] s[i], #[trigger] s[j])
}

pub open spec fn non_decreasing(s: Seq<i32>) -> bool {
    forall|i: int, j: int| 0 <= i < j < s.len() ==> #[trigger] s[i] <= #[trigger] s[j]
}

pub open spec fn strictly_increasing(s: Seq<i32>) -> bool {
    forall|i: int, j: int| 0 <= i < j < s.len() ==> #[trigger] s[i] < #[trigger] s[j]
}

/// `p` splits `s` into the elements that are at most `n / d` (before `p`)
/// and those that exceed it (from `p` on).
pub open spec fn is_partition(s: Seq<i32>, n: int, d: int, p: int) -> bool {
    &&& 0 <= p <= s.len()
    &&& forall|i: int| 0 <= i < p ==> #[trigger] s[i] * d <= n
    &&& forall|i: int| p <= i < s.len() ==> #[trigger] s[i] * d > n
}

/// The number of elements of a sorted `s` that are at most `n / d`.
pub open spec fn partition_point(s: Seq<i32>, n: int, d: int) -> int {
    choose|p: int| is_partition(s, n, d, p)
}

/// The two samples whose segment gives the slope at partition point `pos`.
pub open spec fn slope_ends(pos: int, len: int) -> (int, int) {
    if pos <= 0 {
        (0, 1)
    } else if pos < len {
        (pos, pos - 1)
    } else {
        (len - 2, len - 1)
    }
}

/// The sample that anchors the line at partition point `pos`.
pub open spec fn base_index(pos: int, len: int) -> int {
    if pos == len {
        len - 1
    } else {
        pos
    }
}

/// Piecewise-linear lookup in a calibration table of (x, y) samples, with
/// linear extrapolation beyond both ends.
#[derive(Clone, Debug)]
pub struct Interpolator {
    x: Vec<i32>,
    y: Vec<i32>,
}

impl Interpolator {
    pub closed spec fn xs(&self) -> Seq<i32> {
        self.x@
    }

    pub closed spec fn ys(&self) -> Seq<i32> {
        self.y@
    }

    pub open spec fn len(&self) -> int {
        self.xs().len() as int
    }

    /// The samples, in table order.
    pub open spec fn pairs(&self) -> Seq<(i32, i32)> {
        Seq::new(self.xs().len(), |i: int| (self.xs()[i], self.ys()[i]))
    }

    /// Two aligned sequences of at least two samples, sorted as pairs.
    pub open spec fn wf(&self) -> bool {
        &&& self.xs().len() == self.ys().len()
        &&& self.xs().len() >= 2
        &&& pairs_sorted(self.pairs())
    }

    /// The exact value `estimate_y` gives for `n / d` (`d > 0`), as a
    /// numerator and a denominator.
    pub open spec fn estimate_y_spec(&self, n: int, d: int) -> (int, int) {
        let xs = self.xs();
        let ys = self.ys();
        let p = partition_point(xs, n, d);
        let (i, j) = slope_ends(p, self.len());
        let b = base_index(p, self.len());
        (
            line_num(xs[b] as int, ys[b] as int, xs[i] - xs[j], ys[i] - ys[j], n, d),
            line_den(xs[i] - xs[j], d),
        )
    }

    /// The exact value `estimate_x` gives for `n / d` (`d > 0`): the same rule
    /// with the roles of x and y exchanged.
    pub open spec fn estimate_x_spec(&self, n: int, d: int) -> (int, int) {
        let xs = self.xs();
        let ys = self.ys();
        let p = partition_point(ys, n, d);
        let (i, j) = slope_ends(p, self.len());
        let b = base_index(p, self.len());
        (
            line_num(ys[b] as int, xs[b] as int, ys[i] - ys[j], xs[i] - xs[j], n, d),
            line_den(ys[i] - ys[j], d),
        )
    }

    /// Builds the table from at least two samples given in any order; they
    /// are kept sorted by x, ties by y.
    pub fn with_points(points: Vec<(i32, i32)>) -> (r: Self)
        requires
            points.len() >= 2,
        ensures
            r.wf(),
            r.pairs().to_multiset() == points@.to_multiset(),
    {
        let sorted = sort_pairs(&points);
        let mut x: Vec<i32> = Vec::new();
        let mut y: Vec<i32> = Vec::new();
        let mut k: usize = 0;
        while k < sorted.len()
            invariant
                k <= sorted.len(),
                x@.len() == k,
                y@.len() == k,
                forall|i: int| 0 <= i < k ==> #[trigger] x@[i] == sorted@[i].0 && y@[i] == sorted@[i].1,
            decreases sorted.len() - k,
        {
            x.push(sorted[k].0);
            y.push(sorted[k].1);
            k = k + 1;
        }
        let r = Interpolator { x, y };
        assert(r.pairs() =~= sorted@);
        r
    }

    /// Whether the sample x-values strictly increase, which `estimate_y` needs.
    pub fn has_increasing_x(&self) -> (r: bool)
        ensures
            r == strictly_increasing(self.xs()),
    {
        is_strictly_increasing(&self.x)
    }

    /// Whether the sample y-values strictly increase, which `estimate_x` needs.
    pub fn has_increasing_y(&self) -> (r: bool)
        ensures
            r == strictly_increasing(self.ys()),
    {
        is_strictly_increasing(&self.y)
    }

    /// The y on the piecewise-linear curve at `x`. Between two samples the
    /// curve is the segment that joins them; beyond the table it extends the
    /// first or the last segment.
    pub fn estimate_y(&self, x: Frac) -> (r: Frac)
        requires
            self.wf(),
            strictly_increasing(self.xs()),
            x.is_query(),
        ensures
            r.den > 0,
            same_ratio(
                r.num as int,
                r.den as int,
                self.estimate_y_spec(x.num as int, x.den as int).0,
                self.estimate_y_spec(x.num as int, x.den as int).1,
            ),
            -0x8_0000_0000_0000_0000_0000_0000 < r.num < 0x8_0000_0000_0000_0000_0000_0000,
            r.den <= 0x1_0000_0000_0000_0000,
    {
        let pos = partition(&self.x, x);
        proof {
            lemma_partition_point_is(self.xs(), x.num as int, x.den as int, pos as int);
        }
        let (i, j) = slope_indices(pos, self.x.len());
        let b = if pos == self.x.len() { self.x.len() - 1 } else { pos };
        let du = self.x[i] as i64 - self.x[j] as i64;
        let dv = self.y[i] as i64 - self.y[j] as i64;
        assert(i != j);
        on_line(self.x[b], self.y[b], du, dv, x)
    }

    /// The x at which the piecewise-linear curve reaches `y`, by the same
    /// rule as `estimate_y` with the y-values as the sorted axis.
    pub fn estimate_x(&self, y: Frac) -> (r: Frac)
        requires
            self.wf(),
            strictly_increasing(self.ys()),
            y.is_query(),
        ensures
            r.den > 0,
            same_ratio(
                r.num as int,
                r.den as int,
                self.estimate_x_spec(y.num as int, y.den as int).0,
                self.estimate_x_spec(y.num as int, y.den as int).1,
            ),
            -0x8_0000_0000_0000_0000_0000_0000 < r.num < 0x8_0000_0000_0000_0000_0000_0000,
            r.den <= 0x1_0000_0000_0000_0000,
    {
        let pos = partition(&self.y, y);
        proof {
            lemma_partition_point_is(self.ys(), y.num as int, y.den as int, pos as int);
        }
        let (i, j) = slope_indices(pos, self.y.len());
        let b = if pos == self.y.len() { self.y.len() - 1 } else { pos };
        let du = self.y[i] as i64 - self.y[j] as i64;
        let dv = self.x[i] as i64 - self.x[j] as i64;
        assert(i != j);
        on_line(self.y[b], self.x[b], du, dv, y)
    }
}

fn is_strictly_increasing(s: &Vec<i32>) -> (r: bool)
    ensures
        r == strictly_increasing(s@),
{
    let mut k: usize = 1;
    while k < s.len()
        invariant
            1 <= k,
            forall|i: int, j: int| 0 <= i < j < k && j < s@.len() ==> #[trigger] s@[i] < #[trigger] s@[j],
        decreases s.len() - k,
    {
        if s[k - 1] >= s[k] {
            assert(!(s@[k - 1] < s@[k as int]));
            return false;
        }
        assert forall|i: int, j: int| 0 <= i < j < k + 1 && j < s@.len() implies #[trigger] s@[i] < #[trigger] s@[j] by {
            if j == k && i < k - 1 {
                assert(s@[i] < s@[k - 1]);
            }
        }
        k = k + 1;
    }
    true
}

/// Insertion sort of sample pairs by `pair_le`.
fn sort_pairs(points: &Vec<(i32, i32)>) -> (r: Vec<(i32, i32)>)
    ensures
        pairs_sorted(r@),
        r@.to_multiset() == points@.to_multiset(),
        r@.len() == points@.len(),
{
    let mut out: Vec<(i32, i32)> = Vec::new();
    let mut k: usize = 0;
    while k < points.len()
        invariant
            k <= points.len(),
            pairs_sorted(out@),
            out@.to_multiset() == points@.take(k as int).to_multiset(),
            out@.len() == k,
        decreases points.len() - k,
    {
        let p = points[k];
        let mut at: usize = 0;
        while at < out.len() && (out[at].0 < p.0 || (out[at].0 == p.0 && out[at].1 <= p.1))
            invariant
                at <= out.len(),
                forall|i: int| 0 <= i < at ==> pair_le(#[trigger] out@[i], p),
            decreases out.len() - at,
        {
            at = at + 1;
        }
        proof {
            assert forall|i: int| at <= i < out@.len() implies !pair_le(#[trigger] out@[i], p) by {
                if i > at {
                    assert(pair_le(out@[at as int], out@[i]));
                }
            }
        }
        let ghost before = out@;
        out.insert(at, p);
        proof {
            assert(points@.take(k + 1) =~= points@.take(k as int).push(p));
            vstd::seq_lib::to_multiset_insert(before, at as int, p);
            vstd::seq_lib::to_multiset_build(points@.take(k as int), p);
            assert forall|i: int, j: int| 0 <= i < j < out@.len() implies pair_le(#[trigger] out@[i], #[trigger] out@[j]) by {
                if i < at && j == at {
                } else if i < at && j > at {
                    assert(out@[i] == before[i]);
                    assert(out@[j] == before[j - 1]);
                } else if i == at && j > at {
                    assert(out@[j] == before[j - 1]);
                } else if i > at {
                    assert(out@[i] == before[i - 1]);
                    assert(out@[j] == before[j - 1]);
                } else {
                    assert(out@[i] == before[i]);
                    assert(out@[j] == before[j]);
                }
            }
        }
        k = k + 1;
    }
    assert(points@.take(points@.len() as int) =~= points@);
    out
}

/// At a sample's own x, the curve passes through that sample exactly.
pub proof fn lemma_exact_at_samples(c: Interpolator, k: int)
    requires
        c.wf(),
        strictly_increasing(c.xs()),
        0 <= k < c.len(),
    ensures
        same_ratio(
            c.estimate_y_spec(c.xs()[k] as int, 1).0,
            c.estimate_y_spec(c.xs()[k] as int, 1).1,
            c.ys()[k] as int,
            1,
        ),
{
    let xs = c.xs();
    let ys = c.ys();
    let n = xs[k] as int;
    assert(is_partition(xs, n, 1, k + 1));
    lemma_partition_point_is(xs, n, 1, k + 1);
    let (num, den) = c.estimate_y_spec(n, 1);
    if k + 1 < c.len() {
        let x1 = xs[k + 1] as int;
        let y1 = ys[k + 1] as int;
        let y0 = ys[k] as int;
        assert(num == y1 * 1 * (x1 - n) - (x1 * 1 - n) * (y1 - y0));
        assert(den == 1 * (x1 - n));
        assert(num * 1 == y0 * den) by (nonlinear_arith)
            requires
                num == y1 * 1 * (x1 - n) - (x1 * 1 - n) * (y1 - y0),
                den == 1 * (x1 - n),
        ;
    } else {
        let du = xs[k - 1] - xs[k];
        let dv = ys[k - 1] - ys[k];
        assert(num == ys[k] * 1 * du - (n * 1 - n) * dv);
        assert(den == 1 * du);
        assert(num * 1 == ys[k] * den) by (nonlinear_arith)
            requires
                num == ys[k] * 1 * du - (n * 1 - n) * dv,
                den == 1 * du,
        ;
    }
}

/// Below the first sample the curve continues the first segment, and
/// above the last sample it continues the last one: at `n / d` it gives
/// `y0 + (n / d - x0) * (y1 - y0) / (x1 - x0)` for that segment.
pub proof fn lemma_extrapolation(c: Interpolator, n: int, d: int)
    requires
        c.wf(),
        strictly_increasing(c.xs()),
        d > 0,
    ensures
        n < c.xs()[0] * d ==> {
            let (x0, y0, x1, y1) = (c.xs()[0] as int, c.ys()[0] as int, c.xs()[1] as int, c.ys()[1] as int);
            same_ratio(
                c.estimate_y_spec(n, d).0,
                c.estimate_y_spec(n, d).1,
                y0 * d * (x1 - x0) + (n - x0 * d) * (y1 - y0),
                d * (x1 - x0),
            )
        },
        n > c.xs()[c.len() - 1] * d ==> {
            let l = c.len();
            let (x0, y0, x1, y1) = (c.xs()[l - 2] as int, c.ys()[l - 2] as int, c.xs()[l - 1] as int, c.ys()[l - 1] as int);
            same_ratio(
                c.estimate_y_spec(n, d).0,
                c.estimate_y_spec(n, d).1,
                y1 * d * (x1 - x0) + (n - x1 * d) * (y1 - y0),
                d * (x1 - x0),
            )
        },
{
    let xs = c.xs();
    let ys = c.ys();
    let l = c.len();
    if n < xs[0] * d {
        assert forall|i: int| 0 <= i < l implies #[trigger] xs[i] * d > n by {
            lemma_mul_le(xs[0] as int, xs[i] as int, d);
        }
        assert(is_partition(xs, n, d, 0));
        lemma_partition_point_is(xs, n, d, 0);
        let (x0, y0, x1, y1) = (xs[0] as int, ys[0] as int, xs[1] as int, ys[1] as int);
        let (num, den) = c.estimate_y_spec(n, d);
        assert(num == y0 * d * (x0 - x1) - (x0 * d - n) * (y0 - y1));
        assert(den == d * (x0 - x1));
        assert(same_ratio(num, den, y0 * d * (x1 - x0) + (n - x0 * d) * (y1 - y0), d * (x1 - x0)))
            by (nonlinear_arith)
            requires
                num == y0 * d * (x0 - x1) - (x0 * d - n) * (y0 - y1),
                den == d * (x0 - x1),
        ;
    }
    if n > xs[l - 1] * d {
        assert forall|i: int| 0 <= i < l implies #[trigger] xs[i] * d <= n by {
            lemma_mul_le(xs[i] as int, xs[l - 1] as int, d);
        }
        assert(is_partition(xs, n, d, l));
        lemma_partition_point_is(xs, n, d, l);
        let (x0, y0, x1, y1) = (xs[l - 2] as int, ys[l - 2] as int, xs[l - 1] as int, ys[l - 1] as int);
        let (num, den) = c.estimate_y_spec(n, d);
        assert(num == y1 * d * (x0 - x1) - (x1 * d - n) * (y0 - y1));
        assert(den == d * (x0 - x1));
        assert(same_ratio(num, den, y1 * d * (x1 - x0) + (n - x1 * d) * (y1 - y0), d * (x1 - x0)))
            by (nonlinear_arith)
            requires
                num == y1 * d * (x0 - x1) - (x1 * d - n) * (y0 - y1),
                den == d * (x0 - x1),
        ;
    }
}

/// Where both axes strictly increase, `estimate_x` undoes `estimate_y` for
/// every `n / d` strictly between two neighbouring samples, whichever
/// representation `m / e` of the intermediate value is used.
pub proof fn lemma_round_trip(c: Interpolator, n: int, d: int, k: int, m: int, e: int)
    requires
        c.wf(),
        strictly_increasing(c.xs()),
        strictly_increasing(c.ys()),
        d > 0,
        0 <= k,
        k + 1 < c.len(),
        c.xs()[k] * d < n < c.xs()[k + 1] * d,
        e > 0,
        same_ratio(m, e, c.estimate_y_spec(n, d).0, c.estimate_y_spec(n, d).1),
    ensures
        same_ratio(c.estimate_x_spec(m, e).0, c.estimate_x_spec(m, e).1, n, d),
{
    let xs = c.xs();
    let ys = c.ys();
    let l = c.len();
    assert forall|i: int| 0 <= i <= k implies #[trigger] xs[i] * d <= n by {
        lemma_mul_le(xs[i] as int, xs[k] as int, d);
    }
    assert forall|i: int| k + 1 <= i < l implies #[trigger] xs[i] * d > n by {
        lemma_mul_le(xs[k + 1] as int, xs[i] as int, d);
    }
    assert(is_partition(xs, n, d, k + 1));
    lemma_partition_point_is(xs, n, d, k + 1);
    let (x0, x1, y0, y1) = (xs[k] as int, xs[k + 1] as int, ys[k] as int, ys[k + 1] as int);
    let a = x1 - x0;
    let b = y1 - y0;
    let (num, den) = c.estimate_y_spec(n, d);
    assert(num == y1 * d * a - (x1 * d - n) * b);
    assert(den == d * a);
    assert(num - y0 * den == b * (n - x0 * d)) by (nonlinear_arith)
        requires
            num == y1 * d * a - (x1 * d - n) * b,
            den == d * a,
            a == x1 - x0,
            b == y1 - y0,
    ;
    assert(y1 * den - num == b * (x1 * d - n)) by (nonlinear_arith)
        requires
            num == y1 * d * a - (x1 * d - n) * b,
            den == d * a,
    ;
    assert(b * (n - x0 * d) > 0) by (nonlinear_arith)
        requires
            b > 0,
            n - x0 * d > 0,
    ;
    assert(b * (x1 * d - n) > 0) by (nonlinear_arith)
        requires
            b > 0,
            x1 * d - n > 0,
    ;
    assert(den > 0) by (nonlinear_arith)
        requires
            den == d * a,
            d > 0,
            a > 0,
    ;
    assert(y0 * e < m) by (nonlinear_arith)
        requires
            m * den == num * e,
            y0 * den < num,
            den > 0,
            e > 0,
    ;
    assert(m < y1 * e) by (nonlinear_arith)
        requires
            m * den == num * e,
            num < y1 * den,
            den > 0,
            e > 0,
    ;
    assert forall|i: int| 0 <= i <= k implies #[trigger] ys[i] * e <= m by {
        lemma_mul_le(ys[i] as int, y0, e);
    }
    assert forall|i: int| k + 1 <= i < l implies #[trigger] ys[i] * e > m by {
        lemma_mul_le(y1, ys[i] as int, e);
    }
    assert(is_partition(ys, m, e, k + 1));
    lemma_partition_point_is(ys, m, e, k + 1);
    let (xn, xd) = c.estimate_x_spec(m, e);
    assert(xn == x1 * e * b - (y1 * e - m) * a);
    assert(xd == e * b);
    let t = x1 * d - n;
    assert(m * (d * a) == (y1 * d * a - t * b) * e);
    assert((y1 * e - m) * a * d == y1 * e * a * d - m * a * d) by (nonlinear_arith);
    assert(m * a * d == m * (d * a)) by (nonlinear_arith);
    assert((y1 * d * a - t * b) * e == y1 * d * a * e - t * b * e) by (nonlinear_arith);
    assert(y1 * e * a * d == y1 * d * a * e) by (nonlinear_arith);
    assert(t * b * e == e * b * t) by (nonlinear_arith);
    assert((y1 * e - m) * a * d == e * b * (x1 * d - n));
    assert(xn * d == n * xd) by (nonlinear_arith)
        requires
            xn == x1 * e * b - (y1 * e - m) * a,
            xd == e * b,
            (y1 * e - m) * a * d == e * b * (x1 * d - n),
    ;
}

/// The segment, joining samples `j` and `j + 1`, whose line the curve
/// follows at partition point `pos`.
pub open spec fn segment_of(pos: int, len: int) -> int {
    if pos == 0 {
        0
    } else if pos < len {
        pos - 1
    } else {
        len - 2
    }
}

/// Numerator of `y_j + (n / d - x_j) * (y_(j+1) - y_j) / (x_(j+1) - x_j)`.
pub open spec fn seg_num(xs: Seq<i32>, ys: Seq<i32>, j: int, n: int, d: int) -> int {
    ys[j] * d * (xs[j + 1] - xs[j]) + (n - xs[j] * d) * (ys[j + 1] - ys[j])
}

/// Denominator that goes with `seg_num`.
pub open spec fn seg_den(xs: Seq<i32>, j: int, d: int) -> int {
    d * (xs[j + 1] - xs[j])
}

proof fn lemma_on_segment(c: Interpolator, n: int, d: int)
    requires
        c.wf(),
        strictly_increasing(c.xs()),
        d > 0,
        is_partition(c.xs(), n, d, partition_point(c.xs(), n, d)),
    ensures
        ({
            let j = segment_of(partition_point(c.xs(), n, d), c.len());
            &&& 0 <= j && j + 1 < c.len()
            &&& seg_den(c.xs(), j, d) > 0
            &&& c.estimate_y_spec(n, d).1 != 0
            &&& same_ratio(
                c.estimate_y_spec(n, d).0,
                c.estimate_y_spec(n, d).1,
                seg_num(c.xs(), c.ys(), j, n, d),
                seg_den(c.xs(), j, d),
            )
        }),
{
    let xs = c.xs();
    let ys = c.ys();
    let l = c.len();
    let p = partition_point(xs, n, d);
    let j = segment_of(p, l);
    let (x0, y0, x1, y1) = (xs[j] as int, ys[j] as int, xs[j + 1] as int, ys[j + 1] as int);
    let a = x1 - x0;
    let b = y1 - y0;
    let (num, den) = c.estimate_y_spec(n, d);
    let sn = seg_num(xs, ys, j, n, d);
    let sd = seg_den(xs, j, d);
    assert(sd > 0) by (nonlinear_arith)
        requires
            sd == d * a,
            d > 0,
            a > 0,
    ;
    assert(den == sd || den == -sd) by (nonlinear_arith)
        requires
            den == d * (x0 - x1) || den == d * (x1 - x0),
            sd == d * (x1 - x0),
    ;
    if p == 0 {
        assert(num == y0 * d * (x0 - x1) - (x0 * d - n) * (y0 - y1));
        assert(den == d * (x0 - x1));
        assert(y0 * d * (x0 - x1) == -(y0 * d * a)) by (nonlinear_arith)
            requires
                a == x1 - x0,
        ;
        assert((x0 * d - n) * (y0 - y1) == (n - x0 * d) * b) by (nonlinear_arith)
            requires
                b == y1 - y0,
        ;
        assert(d * (x0 - x1) == -(d * a)) by (nonlinear_arith)
            requires
                a == x1 - x0,
        ;
        assert(num == -sn && den == -sd);
        assert(num * sd == sn * den) by (nonlinear_arith)
            requires
                num == -sn,
                den == -sd,
        ;
    } else if p < l {
        assert(num == y1 * d * (x1 - x0) - (x1 * d - n) * (y1 - y0));
        assert(den == d * (x1 - x0));
        assert(y1 * d * a - y0 * d * a == b * d * a) by (nonlinear_arith)
            requires
                b == y1 - y0,
        ;
        assert((x1 * d - n) * b + (n - x0 * d) * b == d * a * b) by (nonlinear_arith)
            requires
                a == x1 - x0,
        ;
        assert(b * d * a == d * a * b) by (nonlinear_arith);
        assert(num == sn);
    } else {
        assert(num == y1 * d * (x0 - x1) - (x1 * d - n) * (y0 - y1));
        assert(den == d * (x0 - x1));
        assert(y1 * d * (x0 - x1) == -(y1 * d * a)) by (nonlinear_arith)
            requires
                a == x1 - x0,
        ;
        assert((x1 * d - n) * (y0 - y1) == -((x1 * d - n) * b)) by (nonlinear_arith)
            requires
                b == y1 - y0,
        ;
        assert(y1 * d * a - y0 * d * a == b * d * a) by (nonlinear_arith)
            requires
                b == y1 - y0,
        ;
        assert((x1 * d - n) * b + (n - x0 * d) * b == d * a * b) by (nonlinear_arith)
            requires
                a == x1 - x0,
        ;
        assert(b * d * a == d * a * b) by (nonlinear_arith);
        assert(d * (x0 - x1) == -(d * a)) by (nonlinear_arith)
            requires
                a == x1 - x0,
        ;
        assert(num == -sn && den == -sd);
        assert(num * sd == sn * den) by (nonlinear_arith)
            requires
                num == -sn,
                den == -sd,
        ;
    }
}

proof fn lemma_scale_segment(s: int, y: int, d: int, a: int, n: int, x: int, b: int, k: int)
    requires
        s == y * d * a + (n - x * d) * b,
    ensures
        s * k == y * (d * k) * a + (n * k - x * (d * k)) * b,
{
    let u = n - x * d;
    assert((y * d * a + u * b) * k == (y * d * a) * k + (u * b) * k) by (nonlinear_arith);
    assert((y * d * a) * k == y * (d * k) * a) by (nonlinear_arith);
    assert((u * b) * k == (u * k) * b) by (nonlinear_arith);
    assert(u * k == n * k - (x * d) * k) by (nonlinear_arith)
        requires
            u == n - x * d,
    ;
    assert((x * d) * k == x * (d * k)) by (nonlinear_arith);
}

proof fn lemma_ratio_le_trans(a: int, b: int, c: int, e: int, f: int, g: int)
    requires
        b > 0,
        e > 0,
        g > 0,
        ratio_le(a, b, c, e),
        ratio_le(c, e, f, g),
    ensures
        ratio_le(a, b, f, g),
{
    assert(a * e * g <= c * b * g) by (nonlinear_arith)
        requires
            a * e <= c * b,
            g > 0,
    ;
    assert(c * g * b <= f * e * b) by (nonlinear_arith)
        requires
            c * g <= f * e,
            b > 0,
    ;
    assert(a * g <= f * b) by (nonlinear_arith)
        requires
            a * e * g <= c * b * g,
            c * g * b <= f * e * b,
            e > 0,
    ;
}

proof fn lemma_same_ratio_le(a: int, b: int, c: int, e: int)
    requires
        b > 0,
        e > 0,
        same_ratio(a, b, c, e),
    ensures
        ratio_le(a, b, c, e),
        ratio_le(c, e, a, b),
{
}

/// Where the y-values never decrease, neither does the curve, over its
/// whole domain: for `n1 / d1 <= n2 / d2`, `estimate_y` at the first is at
/// most `estimate_y` at the second.
pub proof fn lemma_monotone(c: Interpolator, n1: int, d1: int, n2: int, d2: int)
    requires
        c.wf(),
        strictly_increasing(c.xs()),
        non_decreasing(c.ys()),
        d1 > 0,
        d2 > 0,
        n1 * d2 <= n2 * d1,
    ensures
        ({
            let (a1, b1) = normalized(c.estimate_y_spec(n1, d1).0, c.estimate_y_spec(n1, d1).1);
            let (a2, b2) = normalized(c.estimate_y_spec(n2, d2).0, c.estimate_y_spec(n2, d2).1);
            b1 > 0 && b2 > 0 && ratio_le(a1, b1, a2, b2)
        }),
{
    let xs = c.xs();
    let ys = c.ys();
    let l = c.len();
    lemma_partition_exists(xs, n1, d1);
    lemma_partition_exists(xs, n2, d2);
    lemma_on_segment(c, n1, d1);
    lemma_on_segment(c, n2, d2);
    let p1 = partition_point(xs, n1, d1);
    let p2 = partition_point(xs, n2, d2);
    let j1 = segment_of(p1, l);
    let j2 = segment_of(p2, l);
    let (e1, f1) = c.estimate_y_spec(n1, d1);
    let (e2, f2) = c.estimate_y_spec(n2, d2);
    let (a1, b1) = normalized(e1, f1);
    let (a2, b2) = normalized(e2, f2);
    let s1 = seg_num(xs, ys, j1, n1, d1);
    let t1 = seg_den(xs, j1, d1);
    let s2 = seg_num(xs, ys, j2, n2, d2);
    let t2 = seg_den(xs, j2, d2);
    assert(same_ratio(a1, b1, s1, t1)) by (nonlinear_arith)
        requires
            e1 * t1 == s1 * f1,
            a1 == (if f1 < 0 { -e1 } else { e1 }),
            b1 == (if f1 < 0 { -f1 } else { f1 }),
    ;
    assert(same_ratio(a2, b2, s2, t2)) by (nonlinear_arith)
        requires
            e2 * t2 == s2 * f2,
            a2 == (if f2 < 0 { -e2 } else { e2 }),
            b2 == (if f2 < 0 { -f2 } else { f2 }),
    ;
    lemma_same_ratio_le(a1, b1, s1, t1);
    lemma_same_ratio_le(a2, b2, s2, t2);
    // The partition point, and with it the segment, never moves left as the query grows.
    if p1 > p2 {
        let x = xs[p2] as int;
        assert(x * d1 <= n1);
        assert(x * d2 > n2);
        assert(false) by (nonlinear_arith)
            requires
                x * d1 <= n1,
                x * d2 > n2,
                n1 * d2 <= n2 * d1,
                d1 > 0,
                d2 > 0,
        ;
    }
    if j1 == j2 {
        let x0 = xs[j1] as int;
        let a = xs[j1 + 1] - xs[j1];
        let b = ys[j1 + 1] - ys[j1];
        assert(a > 0 && b >= 0);
        let ya = ys[j1] as int;
        lemma_scale_segment(s1, ya, d1, a, n1, x0, b, d2);
        lemma_scale_segment(s2, ya, d2, a, n2, x0, b, d1);
        assert(d2 * d1 == d1 * d2) by (nonlinear_arith);
        assert((n1 * d2 - x0 * (d1 * d2)) * b <= (n2 * d1 - x0 * (d1 * d2)) * b) by (nonlinear_arith)
            requires
                n1 * d2 <= n2 * d1,
                b >= 0,
        ;
        assert(s1 * d2 * a <= s2 * d1 * a) by (nonlinear_arith)
            requires
                s1 * d2 <= s2 * d1,
                a > 0,
        ;
        assert(s1 * t2 == s1 * d2 * a && s2 * t1 == s2 * d1 * a) by (nonlinear_arith)
            requires
                t1 == d1 * a,
                t2 == d2 * a,
        ;
        lemma_ratio_le_trans(a1, b1, s1, t1, s2, t2);
        lemma_ratio_le_trans(a1, b1, s2, t2, a2, b2);
    } else {
        // The first query lies left of sample j1 + 1 and the second right of sample j2.
        assert(j1 < j2);
        assert(j1 + 1 >= p1);
        assert(j2 < p2);
        let xa = xs[j1] as int;
        let xb = xs[j1 + 1] as int;
        let ya = ys[j1] as int;
        let yb = ys[j1 + 1] as int;
        assert(xb * d1 > n1);
        assert(ratio_le(s1, t1, yb, 1)) by (nonlinear_arith)
            requires
                s1 == ya * d1 * (xb - xa) + (n1 - xa * d1) * (yb - ya),
                t1 == d1 * (xb - xa),
                xb * d1 > n1,
                yb >= ya,
        ;
        let xc = xs[j2] as int;
        let xd = xs[j2 + 1] as int;
        let yc = ys[j2] as int;
        let yd = ys[j2 + 1] as int;
        assert(xc * d2 <= n2);
        assert(ratio_le(yc, 1, s2, t2)) by (nonlinear_arith)
            requires
                s2 == yc * d2 * (xd - xc) + (n2 - xc * d2) * (yd - yc),
                t2 == d2 * (xd - xc),
                xc * d2 <= n2,
                yd >= yc,
        ;
        if j1 + 1 < j2 {
            assert(yb <= yc);
        }
        assert(ratio_le(yb, 1, yc, 1));
        lemma_ratio_le_trans(a1, b1, s1, t1, yb, 1);
        lemma_ratio_le_trans(a1, b1, yb, 1, yc, 1);
        lemma_ratio_le_trans(a1, b1, yc, 1, s2, t2);
        lemma_ratio_le_trans(a1, b1, s2, t2, a2, b2);
    }
}

proof fn lemma_partition_exists(s: Seq<i32>, n: int, d: int)
    requires
        non_decreasing(s),
        d > 0,
    ensures
        is_partition(s, n, d, partition_point(s, n, d)),
{
    lemma_partition_from(s, n, d, 0);
}

proof fn lemma_partition_from(s: Seq<i32>, n: int, d: int, p: int)
    requires
        non_decreasing(s),
        d > 0,
        0 <= p <= s.len(),
        forall|i: int| 0 <= i < p ==> #[trigger] s[i] * d <= n,
    ensures
        is_partition(s, n, d, partition_point(s, n, d)),
    decreases s.len() - p,
{
    if p < s.len() && s[p] * d <= n {
        lemma_partition_from(s, n, d, p + 1);
    } else {
        assert forall|i: int| p <= i < s.len() implies #[trigger] s[i] * d > n by {
            lemma_mul_le(s[p] as int, s[i] as int, d);
        }
        assert(is_partition(s, n, d, p));
    }
}

fn slope_indices(pos: usize, len: usize) -> (r: (usize, usize))
    requires
        len >= 2,
        pos <= len,
    ensures
        r.0 == slope_ends(pos as int, len as int).0,
        r.1 == slope_ends(pos as int, len as int).1,
        r.0 < len,
        r.1 < len,
{
    if pos == 0 {
        (0, 1)
    } else if pos < len {
        (pos, pos - 1)
    } else {
        (len - 2, len - 1)
    }
}

proof fn lemma_partition_point_is(s: Seq<i32>, n: int, d: int, p: int)
    requires
        is_partition(s, n, d, p),
    ensures
        partition_point(s, n, d) == p,
{
    let q = partition_point(s, n, d);
    assert(is_partition(s, n, d, q));
    if q < p {
        assert(s[q] * d <= n);
    } else if q > p {
        assert(s[p] * d <= n);
    }
}

/// Binary search for the number of elements of a sorted `s` that are at most `q`.
fn partition(s: &Vec<i32>, q: Frac) -> (p: usize)
    requires
        non_decreasing(s@),
        q.is_query(),
    ensures
        is_partition(s@, q.num as int, q.den as int, p as int),
{
    let ghost n = q.num as int;
    let ghost d = q.den as int;
    let mut lo: usize = 0;
    let mut hi: usize = s.len();
    while lo < hi
        invariant
            lo <= hi <= s@.len(),
            n == q.num,
            d == q.den,
            0 < d <= u32::MAX,
            i64::MIN <= n <= i64::MAX,
            non_decreasing(s@),
            forall|i: int| 0 <= i < lo ==> #[trigger] s@[i] * d <= n,
            forall|i: int| hi <= i < s@.len() ==> #[trigger] s@[i] * d > n,
        decreases hi - lo,
    {
        let mid = lo + (hi - lo) / 2;
        proof {
            crate::frac::lemma_mul_abs_bound(s@[mid as int] as int, d, 0x8000_0000, 0xFFFF_FFFF);
        }
        if (s[mid] as i128) * q.den <= q.num {
            assert forall|i: int| 0 <= i <= mid implies #[trigger] s@[i] * d <= n by {
                lemma_mul_le(s@[i] as int, s@[mid as int] as int, d);
            }
            lo = mid + 1;
        } else {
            assert forall|i: int| mid <= i < s@.len() implies #[trigger] s@[i] * d > n by {
                lemma_mul_le(s@[mid as int] as int, s@[i] as int, d);
            }
            hi = mid;
        }
    }
    lo
}

proof fn lemma_mul_le(a: int, b: int, d: int)
    requires
        a <= b,
        d > 0,
    ensures
        a * d <= b * d,
{
    assert(a * d <= b * d) by (nonlinear_arith)
        requires
            a <= b,
            d > 0,
    ;
}

} // verus!
