//! Identities between polynomials over the integers that carry the proof
//! that the formulas in Jacobian coordinates compute the chord and the
//! tangent. Each is reached in steps that are small enough to be checked at
//! once.
use crate::jacobian::JacobianPoint;
use crate::polynomial::{poly_double, poly_sum};
use vstd::prelude::*;

verus! {

/// The polynomials of doubling at `(x * Z^2, y * Z^3, Z)`, with `Z^4`
/// factored out.
pub proof fn lemma_poly_double_affine(a: int, x: int, y: int, z: int)
    ensures
        ({
            let raw = JacobianPoint { x: x * (z * z), y: y * (z * z * z), z };
            let z4 = (z * z) * (z * z);
            let n = 3 * (x * x) + a;
            let e = poly_double(a, raw);
            e.x == (z4 * z4) * (n * n - 8 * (x * (y * y))) && e.y == (z4 * z4 * z4) * (n * (12 * (x
                * (y * y)) - n * n) - 8 * ((y * y) * (y * y))) && e.z == 2 * (y * z4)
        }),
{
    let zz = z * z;
    let z4 = zz * zz;
    let z8 = z4 * z4;
    let z12 = z4 * z4 * z4;
    let (rx, ry) = (x * zz, y * (z * z * z));
    let (xx, yy) = (x * x, y * y);
    let xyy = x * yy;
    let y4 = yy * yy;
    let n = 3 * xx + a;
    let nn = n * n;
    let m = 3 * (rx * rx) + a * z4;
    let s = 4 * (rx * (ry * ry));
    let x3 = m * m - 2 * s;
    let ry4 = (ry * ry) * (ry * ry);
    let y3 = m * (s - x3) - 8 * ry4;
    assert(rx * rx == z4 * xx) by (nonlinear_arith)
        requires
            rx == x * zz,
            z4 == zz * zz,
            xx == x * x,
    ;
    assert(m == z4 * n) by (nonlinear_arith)
        requires
            m == 3 * (z4 * xx) + a * z4,
            n == 3 * xx + a,
    ;
    assert(ry * ry == (z4 * zz) * yy) by (nonlinear_arith)
        requires
            ry == y * (z * z * z),
            zz == z * z,
            z4 == zz * zz,
            yy == y * y,
    ;
    assert(rx * ((z4 * zz) * yy) == z8 * xyy) by (nonlinear_arith)
        requires
            rx == x * zz,
            z8 == z4 * z4,
            z4 == zz * zz,
            xyy == x * yy,
    ;
    assert(s == z8 * (4 * xyy)) by (nonlinear_arith)
        requires
            s == 4 * (z8 * xyy),
    ;
    assert(m * m == z8 * nn) by (nonlinear_arith)
        requires
            m == z4 * n,
            z8 == z4 * z4,
            nn == n * n,
    ;
    assert(x3 == z8 * (nn - 8 * xyy)) by (nonlinear_arith)
        requires
            x3 == z8 * nn - 2 * (z8 * (4 * xyy)),
    ;
    assert(ry4 == z12 * y4) by (nonlinear_arith)
        requires
            ry4 == ((z4 * zz) * yy) * ((z4 * zz) * yy),
            z4 == zz * zz,
            z12 == z4 * z4 * z4,
            y4 == yy * yy,
    ;
    let gap = 12 * xyy - nn;
    assert(s - x3 == z8 * gap) by (nonlinear_arith)
        requires
            s == z8 * (4 * xyy),
            x3 == z8 * (nn - 8 * xyy),
            gap == 12 * xyy - nn,
    ;
    assert(m * (z8 * gap) == z12 * (n * gap)) by (nonlinear_arith)
        requires
            m == z4 * n,
            z8 == z4 * z4,
            z12 == z4 * z4 * z4,
    ;
    let ngap = n * gap;
    assert(y3 == z12 * (ngap - 8 * y4)) by (nonlinear_arith)
        requires
            y3 == z12 * ngap - 8 * (z12 * y4),
    ;
    assert(2 * (ry * z) == 2 * (y * z4)) by (nonlinear_arith)
        requires
            ry == y * (z * z * z),
            z4 == (z * z) * (z * z),
    ;
}

/// The `x` of the tangent's third point, cleared of denominators: with
/// `v = 2 * y * w`, where `w` stands for the inverse of `2 * y`, the
/// difference between `x3 * Z3^2` and `X3` is a multiple of `v - 1`.
pub proof fn lemma_tangent_x(n: int, w: int, x: int, y: int, z4: int)
    ensures
        ({
            let v = (y + y) * w;
            let tx = (n * w) * (n * w) - x - x;
            let ez = 2 * (y * z4);
            let ex = (z4 * z4) * (n * n - 8 * (x * (y * y)));
            tx * (ez * ez) - ex == ((z4 * z4) * (n * n) * (v + 1)) * (v - 1)
        }),
{
    let v = (y + y) * w;
    let nw = n * w;
    let yy = y * y;
    let z8 = z4 * z4;
    let sq = nw * nw;
    let tx = sq - x - x;
    let ez = 2 * (y * z4);
    let nn = n * n;
    let vv = v * v;
    let xyy = x * yy;
    let ex = z8 * (nn - 8 * xyy);
    lemma_slope_square(n, w, y + y);
    assert((y + y) * (y + y) == 4 * yy) by (nonlinear_arith)
        requires
            yy == y * y,
    ;
    assert(ez * ez == z8 * (4 * yy)) by (nonlinear_arith)
        requires
            ez == 2 * (y * z4),
            yy == y * y,
            z8 == z4 * z4,
    ;
    assert(tx * (4 * yy) == nn * vv - 8 * xyy) by (nonlinear_arith)
        requires
            tx == sq - x - x,
            sq * (4 * yy) == nn * vv,
            xyy == x * yy,
    ;
    let lhs = tx * (4 * yy);
    assert(tx * (z8 * (4 * yy)) == z8 * lhs) by (nonlinear_arith)
        requires
            lhs == tx * (4 * yy),
    ;
    let nnvv = nn * vv;
    assert(z8 * lhs - ex == z8 * (nnvv - nn)) by (nonlinear_arith)
        requires
            lhs == nnvv - 8 * xyy,
            ex == z8 * (nn - 8 * xyy),
    ;
    assert(nnvv - nn == (nn * (v + 1)) * (v - 1)) by (nonlinear_arith)
        requires
            nnvv == nn * (v * v),
    ;
    let f = nn * (v + 1);
    assert(z8 * (f * (v - 1)) == (z8 * nn * (v + 1)) * (v - 1)) by (nonlinear_arith)
        requires
            f == nn * (v + 1),
    ;
}

/// The square of a slope `n * w` times the square of the denominator `g`
/// that `w` stands for the inverse of: `(n * w)^2 * g^2 = n^2 * (g * w)^2`.
proof fn lemma_slope_square(n: int, w: int, g: int)
    ensures
        ((n * w) * (n * w)) * (g * g) == (n * n) * ((g * w) * (g * w)),
{
    let nw = n * w;
    let gw = g * w;
    assert(nw * g == n * gw) by (nonlinear_arith)
        requires
            nw == n * w,
            gw == g * w,
    ;
    assert((nw * nw) * (g * g) == (nw * g) * (nw * g)) by (nonlinear_arith);
    assert((n * gw) * (n * gw) == (n * n) * (gw * gw)) by (nonlinear_arith);
}

/// `v * (k - m * v^2) - (k - m)` is a multiple of `v - 1`.
proof fn lemma_cubic_factor(v: int, k: int, m: int)
    ensures
        v * (k - m * (v * v)) - (k - m) == (k - m * (v * v + v + 1)) * (v - 1),
{
    let vv = v * v;
    assert(v * (k - m * vv) - (k - m) == (k - m * (vv + v + 1)) * (v - 1)) by (nonlinear_arith)
        requires
            vv == v * v,
    ;
}

/// What both third points have in common: with `ty = s * gap - y`, where the
/// slope `s` times the denominator `g` is `n * v` and the gap times `c` is
/// `k - m * v^2`, the difference between `ty * (g * c)` and
/// `n * (k - m) - y * (g * c)` is a multiple of `v - 1`.
proof fn lemma_third_point_y(
    s: int,
    gap: int,
    y: int,
    g: int,
    c: int,
    n: int,
    v: int,
    k: int,
    m: int,
)
    requires
        s * g == n * v,
        c * gap == k - m * (v * v),
    ensures
        (s * gap - y) * (g * c) - (n * (k - m) - y * (g * c)) == (n * (k - m * (v * v + v + 1)))
            * (v - 1),
{
    let ty = s * gap - y;
    let sg = s * g;
    let cgap = c * gap;
    assert(ty * (g * c) == sg * cgap - y * (g * c)) by (nonlinear_arith)
        requires
            ty == s * gap - y,
            sg == s * g,
            cgap == c * gap,
    ;
    let inner = k - m * (v * v);
    assert((n * v) * inner == n * (v * inner)) by (nonlinear_arith);
    lemma_cubic_factor(v, k, m);
    let factor = k - m * (v * v + v + 1);
    let step = factor * (v - 1);
    assert(n * (v * inner) - n * (k - m) == n * step) by (nonlinear_arith)
        requires
            v * inner - (k - m) == step,
    ;
    assert(n * step == (n * factor) * (v - 1)) by (nonlinear_arith)
        requires
            step == factor * (v - 1),
    ;
}

/// The `y` of the tangent's third point, cleared of denominators: the
/// difference between `y3 * Z3^3` and `Y3` is a multiple of `v - 1`.
pub proof fn lemma_tangent_y(n: int, w: int, x: int, y: int, z4: int)
    ensures
        ({
            let v = (y + y) * w;
            let tx = (n * w) * (n * w) - x - x;
            let ty = (n * w) * (x - tx) - y;
            let ez = 2 * (y * z4);
            let ey = (z4 * z4 * z4) * (n * (12 * (x * (y * y)) - n * n) - 8 * ((y * y) * (y * y)));
            ty * (ez * ez * ez) - ey == ((z4 * z4 * z4) * n * (12 * (x * (y * y)) - (n * n) * (v * v
                + v + 1))) * (v - 1)
        }),
{
    let g = y + y;
    let v = g * w;
    let nw = n * w;
    let yy = y * y;
    let z12 = z4 * z4 * z4;
    let sq = nw * nw;
    let tx = sq - x - x;
    let gap = x - tx;
    let ty = nw * gap - y;
    let ez = 2 * (y * z4);
    let nn = n * n;
    let vv = v * v;
    let xyy = x * yy;
    let k = 12 * xyy;
    let c = 4 * yy;
    let y4 = yy * yy;
    let ey = z12 * (n * (k - nn) - 8 * y4);
    lemma_slope_square(n, w, g);
    assert(g * g == c) by (nonlinear_arith)
        requires
            g == y + y,
            c == 4 * (y * y),
    ;
    assert(c * gap == k - nn * vv) by (nonlinear_arith)
        requires
            gap == x - (sq - x - x),
            sq * c == nn * vv,
            k == 12 * xyy,
            xyy == x * yy,
            c == 4 * yy,
    ;
    assert(nw * g == n * v) by (nonlinear_arith)
        requires
            nw == n * w,
            v == g * w,
    ;
    lemma_third_point_y(nw, gap, y, g, c, n, v, k, nn);
    // 2 * y * 4 * y^2 = 8 * y^3, and y * 8 * y^3 = 8 * y^4
    let gc = g * c;
    assert(ez * ez * ez == z12 * gc) by (nonlinear_arith)
        requires
            ez == 2 * (y * z4),
            gc == (y + y) * (4 * (y * y)),
            z12 == z4 * z4 * z4,
    ;
    assert(y * gc == 8 * y4) by (nonlinear_arith)
        requires
            gc == (y + y) * (4 * (y * y)),
            y4 == (y * y) * (y * y),
    ;
    let reduced = n * (k - nn) - y * gc;
    assert(ey == z12 * reduced);
    let diff = ty * gc - reduced;
    assert(ty * (z12 * gc) - z12 * reduced == z12 * diff) by (nonlinear_arith)
        requires
            diff == ty * gc - reduced,
    ;
    let factor = n * (k - nn * (vv + v + 1));
    assert(z12 * (factor * (v - 1)) == (z12 * n * (k - nn * (vv + v + 1))) * (v - 1))
        by (nonlinear_arith)
        requires
            factor == n * (k - nn * (vv + v + 1)),
    ;
}

/// The polynomials of the sum at `(x1 * Z1^2, y1 * Z1^3, Z1)` and
/// `(x2 * Z2^2, y2 * Z2^3, Z2)`, in `d = x2 - x1`, `e = y2 - y1` and
/// `t = Z1 * Z2`, with the powers of `t` factored out.
pub proof fn lemma_poly_sum_affine(x1: int, y1: int, d: int, e: int, t: int)
    ensures
        ({
            let t3 = t * t * t;
            let b = e * e - (d * d) * (d + 2 * x1);
            let s = poly_sum(x1 * (t * t), y1 * t3, d * (t * t), e * t3, t);
            s.x == (4 * (t3 * t3)) * b && s.y == (8 * (t3 * t3 * t3)) * (e * (x1 * (d * d) - b) - y1
                * (d * d * d)) && s.z == 2 * (t3 * d)
        }),
{
    let tt = t * t;
    let t3 = t * t * t;
    let t6 = t3 * t3;
    let t9 = t3 * t3 * t3;
    let (u1, s1, h, r) = (x1 * tt, y1 * t3, d * tt, e * t3);
    let (dd, ddd, ee) = (d * d, d * d * d, e * e);
    let x1dd = x1 * dd;
    let b = ee - dd * (d + 2 * x1);
    let rr = r * r;
    let hh = h * h;
    let hhh = h * h * h;
    let t4 = tt * tt;
    assert(rr == t6 * ee) by (nonlinear_arith)
        requires
            rr == (e * t3) * (e * t3),
            t6 == t3 * t3,
            ee == e * e,
    ;
    assert(hh == t4 * dd) by (nonlinear_arith)
        requires
            hh == (d * tt) * (d * tt),
            t4 == tt * tt,
            dd == d * d,
    ;
    assert(t4 * tt == t6) by (nonlinear_arith)
        requires
            tt == t * t,
            t4 == tt * tt,
            t6 == (t * t * t) * (t * t * t),
    ;
    assert(hhh == t6 * ddd) by (nonlinear_arith)
        requires
            hhh == hh * (d * tt),
            hh == t4 * dd,
            t4 * tt == t6,
            ddd == dd * d,
    ;
    assert(hh * h == h * h * h) by (nonlinear_arith)
        requires
            hh == h * h,
    ;
    assert(dd * d == d * d * d) by (nonlinear_arith)
        requires
            dd == d * d,
    ;
    assert(u1 * hh == t6 * x1dd) by (nonlinear_arith)
        requires
            u1 == x1 * tt,
            hh == t4 * dd,
            t4 * tt == t6,
            x1dd == x1 * dd,
    ;
    let u1hh = u1 * hh;
    let x3 = 4 * rr - 4 * hhh - 8 * u1hh;
    assert(dd * (d + 2 * x1) == ddd + 2 * x1dd) by (nonlinear_arith)
        requires
            ddd == dd * d,
            x1dd == x1 * dd,
    ;
    assert(x3 == (4 * t6) * b) by (nonlinear_arith)
        requires
            x3 == 4 * (t6 * ee) - 4 * (t6 * ddd) - 8 * (t6 * x1dd),
            b == ee - (ddd + 2 * x1dd),
    ;
    let inner = 4 * u1hh - x3;
    let gap = x1dd - b;
    assert(inner == (4 * t6) * gap) by (nonlinear_arith)
        requires
            inner == 4 * (t6 * x1dd) - (4 * t6) * b,
            gap == x1dd - b,
    ;
    assert(t3 * t6 == t9) by (nonlinear_arith)
        requires
            t6 == t3 * t3,
            t9 == t3 * t3 * t3,
    ;
    assert(r * inner == (4 * t9) * (e * gap)) by (nonlinear_arith)
        requires
            r == e * t3,
            inner == (4 * t6) * gap,
            t3 * t6 == t9,
    ;
    assert(s1 * hhh == t9 * (y1 * ddd)) by (nonlinear_arith)
        requires
            s1 == y1 * t3,
            hhh == t6 * ddd,
            t3 * t6 == t9,
    ;
    let rin = r * inner;
    let s1h = s1 * hhh;
    let y3 = 2 * rin - 8 * s1h;
    let egap = e * gap;
    let y1ddd = y1 * ddd;
    assert(y3 == (8 * t9) * (egap - y1ddd)) by (nonlinear_arith)
        requires
            y3 == 2 * ((4 * t9) * egap) - 8 * (t9 * y1ddd),
    ;
    assert(2 * (t * h) == 2 * (t3 * d)) by (nonlinear_arith)
        requires
            h == d * (t * t),
            t3 == t * t * t,
    ;
}

/// The `x` of the chord's third point, cleared of denominators: with
/// `v = d * w`, where `w` stands for the inverse of `d = x2 - x1`, the
/// difference between `x3 * Z3^2` and `X3` is a multiple of `v - 1`.
pub proof fn lemma_chord_x(e: int, w: int, x1: int, d: int, t6: int, t3: int)
    requires
        t6 == t3 * t3,
    ensures
        ({
            let v = d * w;
            let tx = (e * w) * (e * w) - x1 - (x1 + d);
            let b = e * e - (d * d) * (d + 2 * x1);
            let z3 = 2 * (t3 * d);
            tx * (z3 * z3) - (4 * t6) * b == ((4 * t6) * (e * e) * (v + 1)) * (v - 1)
        }),
{
    let v = d * w;
    let sq = (e * w) * (e * w);
    let tx = sq - x1 - (x1 + d);
    let z3 = 2 * (t3 * d);
    let dd = d * d;
    let ee = e * e;
    let vv = v * v;
    let b = ee - dd * (d + 2 * x1);
    let c = 4 * t6;
    lemma_slope_square(e, w, d);
    assert(z3 * z3 == c * dd) by (nonlinear_arith)
        requires
            z3 == 2 * (t3 * d),
            c == 4 * (t3 * t3),
            dd == d * d,
    ;
    let eevv = ee * vv;
    assert(tx * dd - b == eevv - ee) by (nonlinear_arith)
        requires
            tx == sq - x1 - (x1 + d),
            sq * dd == eevv,
            b == ee - dd * (d + 2 * x1),
    ;
    let txdd = tx * dd;
    assert(tx * (c * dd) - c * b == c * (txdd - b)) by (nonlinear_arith)
        requires
            txdd == tx * dd,
    ;
    assert(eevv - ee == (ee * (v + 1)) * (v - 1)) by (nonlinear_arith)
        requires
            eevv == ee * (v * v),
    ;
    let f = ee * (v + 1);
    assert(c * (f * (v - 1)) == (c * ee * (v + 1)) * (v - 1)) by (nonlinear_arith)
        requires
            f == ee * (v + 1),
    ;
}

/// The `y` of the chord's third point, cleared of denominators: the
/// difference between `y3 * Z3^3` and `Y3` is a multiple of `v - 1`.
pub proof fn lemma_chord_y(e: int, w: int, x1: int, y1: int, d: int, t9: int, t3: int)
    requires
        t9 == t3 * t3 * t3,
    ensures
        ({
            let v = d * w;
            let tx = (e * w) * (e * w) - x1 - (x1 + d);
            let ty = (e * w) * (x1 - tx) - y1;
            let b = e * e - (d * d) * (d + 2 * x1);
            let k = (d * d) * (3 * x1 + d);
            let z3 = 2 * (t3 * d);
            ty * (z3 * z3 * z3) - (8 * t9) * (e * (x1 * (d * d) - b) - y1 * (d * d * d)) == ((8
                * t9) * e * (k - (e * e) * (v * v + v + 1))) * (v - 1)
        }),
{
    let v = d * w;
    let ew = e * w;
    let sq = ew * ew;
    let tx = sq - x1 - (x1 + d);
    let gap = x1 - tx;
    let ty = ew * gap - y1;
    let dd = d * d;
    let ddd = d * d * d;
    let ee = e * e;
    let vv = v * v;
    let b = ee - dd * (d + 2 * x1);
    let k = dd * (3 * x1 + d);
    let z3 = 2 * (t3 * d);
    let c = 8 * t9;
    lemma_slope_square(e, w, d);
    assert(dd * gap == k - ee * vv) by (nonlinear_arith)
        requires
            gap == x1 - (sq - x1 - (x1 + d)),
            sq * dd == ee * vv,
            k == dd * (3 * x1 + d),
    ;
    assert(ew * d == e * v) by (nonlinear_arith)
        requires
            ew == e * w,
            v == d * w,
    ;
    lemma_third_point_y(ew, gap, y1, d, dd, e, v, k, ee);
    assert(d * dd == ddd) by (nonlinear_arith)
        requires
            dd == d * d,
            ddd == d * d * d,
    ;
    assert(z3 * z3 * z3 == c * ddd) by (nonlinear_arith)
        requires
            z3 == 2 * (t3 * d),
            c == 8 * (t3 * t3 * t3),
            ddd == d * d * d,
    ;
    assert(x1 * dd - b == k - ee) by (nonlinear_arith)
        requires
            b == ee - dd * (d + 2 * x1),
            k == dd * (3 * x1 + d),
    ;
    let reduced = e * (k - ee) - y1 * ddd;
    let diff = ty * ddd - reduced;
    assert(ty * (c * ddd) - c * reduced == c * diff) by (nonlinear_arith)
        requires
            diff == ty * ddd - reduced,
    ;
    let factor = e * (k - ee * (vv + v + 1));
    assert(c * (factor * (v - 1)) == (c * e * (k - ee * (vv + v + 1))) * (v - 1))
        by (nonlinear_arith)
        requires
            factor == e * (k - ee * (vv + v + 1)),
    ;
}

/// The cubic `x^3 + a * x + b` of the curve.
pub open spec fn cubic(a: int, b: int, x: int) -> int {
    (x * x) * x + a * x + b
}

/// The cubic of the curve along a line: for the line through `(x1, y1)` with
/// slope `s`, the difference between the cubic and the square of the line,
/// `u` away from `x1`, is its value at `x1` and a multiple of `u`.
pub proof fn lemma_line_meets_cubic(s: int, x1: int, y1: int, u: int, a: int, b: int)
    ensures
        (cubic(a, b, x1 + u) - (s * u + y1) * (s * u + y1)) - (cubic(a, b, x1) - y1 * y1) == u * (3
            * (x1 * x1) + a - 2 * (s * y1) + u * (3 * x1 - s * s + u)),
{
    let xx = x1 * x1;
    let uu = u * u;
    let ss = s * s;
    let sy = s * y1;
    let su = s * u;
    let x = x1 + u;
    assert((x * x) * x == (xx * x1) + u * (3 * xx + u * (3 * x1 + u))) by (nonlinear_arith)
        requires
            x == x1 + u,
            xx == x1 * x1,
    ;
    assert(a * x == a * x1 + u * a) by (nonlinear_arith)
        requires
            x == x1 + u,
    ;
    assert((su + y1) * (su + y1) == y1 * y1 + u * (2 * sy + u * ss)) by (nonlinear_arith)
        requires
            su == s * u,
            sy == s * y1,
            ss == s * s,
    ;
    let first = 3 * xx + u * (3 * x1 + u);
    let second = 2 * sy + u * ss;
    assert(u * first + u * a - u * second == u * (first + a - second)) by (nonlinear_arith);
    assert(first + a - second == 3 * xx + a - 2 * sy + u * (3 * x1 - ss + u)) by (nonlinear_arith)
        requires
            first == 3 * xx + u * (3 * x1 + u),
            second == 2 * sy + u * ss,
    ;
}

} // verus!
