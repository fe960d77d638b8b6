use vstd::prelude::*;

verus! {

/// An exact rational number `num / den`.
///
/// Every value that the library hands out has a positive denominator.
#[derive(Clone, Copy, Debug)]
pub struct Frac {
    pub num: i128,
    pub den: i128,
}

/// `a / b == c / e`, for nonzero `b` and `e`.
pub open spec fn same_ratio(a: int, b: int, c: int, e: int) -> bool {
    a * e == c * b
}

/// `a / b <= c / e`, for positive `b` and `e`.
pub open spec fn ratio_le(a: int, b: int, c: int, e: int) -> bool {
    a * e <= c * b
}

/// `n / d` with the sign moved to the numerator.
pub open spec fn normalized(n: int, d: int) -> (int, int) {
    if d < 0 {
        (-n, -d)
    } else {
        (n, d)
    }
}

/// Largest magnitude of a difference of two `i32` values.
pub open spec fn span_bound() -> int {
    0xFFFF_FFFF
}

impl Frac {
    /// A value that may be used as a query of the interpolator: a positive
    /// denominator that fits in `u32` and a numerator that fits in `i64`.
    pub open spec fn is_query(self) -> bool {
        0 < self.den <= u32::MAX && i64::MIN <= self.num <= i64::MAX
    }

    /// `num / den` as a query value.
    pub fn new(num: i64, den: u32) -> (r: Frac)
        requires
            den > 0,
        ensures
            r.num == num,
            r.den == den,
            r.is_query(),
    {
        Frac { num: num as i128, den: den as i128 }
    }

    /// The whole number `v`.
    pub fn from_int(v: i64) -> (r: Frac)
        ensures
            r.num == v,
            r.den == 1,
            r.is_query(),
    {
        Frac { num: v as i128, den: 1 }
    }
}

/// Numerator of the point above `u` on the line through `(bu, bv)` whose
/// slope is `dv / du`, where `u = n / d`:
/// `bv - (bu - u) * dv / du == (bv * d * du - (bu * d - n) * dv) / (d * du)`.
pub open spec fn line_num(bu: int, bv: int, du: int, dv: int, n: int, d: int) -> int {
    bv * d * du - (bu * d - n) * dv
}

/// Denominator that goes with `line_num`.
pub open spec fn line_den(du: int, d: int) -> int {
    d * du
}

pub proof fn lemma_mul_abs_bound(a: int, b: int, x: int, y: int)
    requires
        -x <= a <= x,
        -y <= b <= y,
    ensures
        -(x * y) <= a * b <= x * y,
{
    assert(-(x * y) <= a * b <= x * y) by (nonlinear_arith)
        requires
            -x <= a <= x,
            -y <= b <= y,
    ;
}

/// The point above `q` on the line through `(bu, bv)` with slope `dv / du`.
/// Where `q` is `bu` itself the result is `bv` exactly.
pub fn on_line(bu: i32, bv: i32, du: i64, dv: i64, q: Frac) -> (r: Frac)
    requires
        q.is_query(),
        du != 0,
        -span_bound() <= du <= span_bound(),
        -span_bound() <= dv <= span_bound(),
    ensures
        r.den > 0,
        same_ratio(
            r.num as int,
            r.den as int,
            line_num(bu as int, bv as int, du as int, dv as int, q.num as int, q.den as int),
            line_den(du as int, q.den as int),
        ),
        -0x8_0000_0000_0000_0000_0000_0000 < r.num < 0x8_0000_0000_0000_0000_0000_0000,
        r.den <= 0x1_0000_0000_0000_0000,
{
    let ghost n = q.num as int;
    let ghost d = q.den as int;
    proof {
        lemma_mul_abs_bound(bu as int, d, 0x8000_0000, 0xFFFF_FFFF);
        lemma_mul_abs_bound(bv as int, d, 0x8000_0000, 0xFFFF_FFFF);
    }
    let bud = (bu as i128) * q.den;
    let t = bud - q.num;
    let bvd = (bv as i128) * q.den;
    if t == 0 {
        proof {
            assert(line_num(bu as int, bv as int, du as int, dv as int, n, d) == bv * d * du);
            assert((bv as int) * (d * du) == bv * d * du) by (nonlinear_arith);
        }
        return Frac { num: bv as i128, den: 1 };
    }
    proof {
        lemma_mul_abs_bound(bvd as int, du as int, 0x8000_0000_0000_0000, 0xFFFF_FFFF);
        lemma_mul_abs_bound(t as int, dv as int, 0x1_0000_0000_0000_0000, 0xFFFF_FFFF);
        lemma_mul_abs_bound(d, du as int, 0xFFFF_FFFF, 0xFFFF_FFFF);
    }
    let a = bvd * (du as i128);
    let b = t * (dv as i128);
    let num = a - b;
    let den = q.den * (du as i128);
    proof {
        assert(num == line_num(bu as int, bv as int, du as int, dv as int, n, d));
        assert(den == line_den(du as int, d));
        assert(den != 0) by (nonlinear_arith)
            requires
                den == d * du,
                d > 0,
                du != 0,
        ;
    }
    if den < 0 {
        proof {
            assert((-num) * den == num * (-den)) by (nonlinear_arith);
        }
        Frac { num: -num, den: -den }
    } else {
        proof {
            assert(num * den == num * den);
        }
        Frac { num, den }
    }
}

} // verus!
