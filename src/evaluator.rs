//! Response curves that map one child's score to the node's score.
use vstd::prelude::*;
use crate::score::{clamp_unit, lemma_score_nonneg, values, Score, SCALE};

verus! {

broadcast use lemma_score_nonneg;

/// Bound on the magnitude of a curve's anchor coordinates, in billionths.
pub const COORD_LIMIT: i64 = 1000000000000;

/// Bound on the magnitude of a curve's shape parameter: 0.99999.
pub const MAX_SHAPE: i64 = 999990000;

/// Largest exponent a power curve takes.
pub const MAX_POWER: u32 = 10000;

/// A point of a curve, both coordinates in billionths.
#[derive(Clone, Copy, PartialEq, Eq, Structural, Debug)]
pub struct Point {
    pub x: i64,
    pub y: i64,
}

impl Point {
    pub fn new(x: i64, y: i64) -> (r: Point)
        ensures
            r.x == x,
            r.y == y,
    {
        Point { x, y }
    }
}

/// Whether both coordinates of the point are within the anchor bound.
pub open spec fn in_limits(p: Point) -> bool {
    -COORD_LIMIT <= p.x <= COORD_LIMIT && -COORD_LIMIT <= p.y <= COORD_LIMIT
}

/// The exponent a power curve keeps of the one it is given.
pub open spec fn capped_power(p: u32) -> nat {
    if p > MAX_POWER {
        MAX_POWER as nat
    } else {
        p as nat
    }
}

/// `n / d`, rounded toward zero.
pub open spec fn ratio(n: int, d: int) -> int {
    if d > 0 {
        if n >= 0 {
            n / d
        } else {
            -((-n) / d)
        }
    } else {
        if n <= 0 {
            (-n) / (-d)
        } else {
            -(n / (-d))
        }
    }
}

/// The anchors a curve keeps: two anchors at one `x` are moved one unit apart, and the
/// anchor with the smaller `x` comes first.
pub open spec fn normalized(a: Point, b: Point) -> (Point, Point) {
    let (p, q) = if a.x == b.x {
        if a.x < COORD_LIMIT {
            (a, Point { x: (b.x + 1) as i64, y: b.y })
        } else {
            (Point { x: (a.x - 1) as i64, y: a.y }, b)
        }
    } else {
        (a, b)
    };
    if p.x > q.x {
        (q, p)
    } else {
        (p, q)
    }
}

fn normalize(a: Point, b: Point) -> (r: (Point, Point))
    requires
        in_limits(a),
        in_limits(b),
    ensures
        r == normalized(a, b),
        in_limits(r.0),
        in_limits(r.1),
        r.0.x < r.1.x,
{
    let (p, q) = if a.x == b.x {
        if a.x < COORD_LIMIT {
            (a, Point { x: b.x + 1, y: b.y })
        } else {
            (Point { x: a.x - 1, y: a.y }, b)
        }
    } else {
        (a, b)
    };
    if p.x > q.x {
        (q, p)
    } else {
        (p, q)
    }
}

/// The smaller of two heights.
pub open spec fn lower(p: i64, q: i64) -> int {
    if p <= q {
        p as int
    } else {
        q as int
    }
}

/// The larger of two heights.
pub open spec fn upper(p: i64, q: i64) -> int {
    if p <= q {
        q as int
    } else {
        p as int
    }
}

/// `v` clamped into `[lo, hi]`.
pub open spec fn clamp_to(v: int, lo: int, hi: int) -> int {
    if v < lo {
        lo
    } else if v > hi {
        hi
    } else {
        v
    }
}

/// Fixed-point power `t^p` of a fraction `t` in billionths; every step rounds down.
pub open spec fn power_of(t: int, p: nat) -> int
    decreases p,
{
    if p == 0 {
        SCALE as int
    } else {
        power_of(t, (p - 1) as nat) * t / SCALE as int
    }
}

fn ratio_exec(n: i128, d: i128) -> (r: i128)
    requires
        d != 0,
        -0x100_0000_0000_0000_0000_0000_0000_0000 < n < 0x100_0000_0000_0000_0000_0000_0000_0000,
        -0x100_0000_0000_0000_0000_0000_0000_0000 < d < 0x100_0000_0000_0000_0000_0000_0000_0000,
    ensures
        r == ratio(n as int, d as int),
{
    let (un, neg_n): (u128, bool) = if n >= 0 {
        (n as u128, false)
    } else {
        ((-n) as u128, true)
    };
    let (ud, neg_d): (u128, bool) = if d > 0 {
        (d as u128, false)
    } else {
        ((-d) as u128, true)
    };
    let q = un / ud;
    assert(q <= un) by (nonlinear_arith)
        requires
            ud >= 1,
            q == un / ud,
    ;
    if neg_n != neg_d {
        -(q as i128)
    } else {
        q as i128
    }
}

/// A straight line through two points, clamped between their heights.
#[derive(Clone, Copy, PartialEq, Eq, Structural, Debug)]
pub struct LinearEvaluator {
    a: Point,
    b: Point,
}

impl LinearEvaluator {
    #[verifier::type_invariant]
    spec fn inv(self) -> bool {
        in_limits(self.a) && in_limits(self.b) && self.a.x != self.b.x
    }

    pub closed spec fn spec_a(&self) -> Point {
        self.a
    }

    pub closed spec fn spec_b(&self) -> Point {
        self.b
    }

    pub open spec fn spec_evaluate(&self, x: int) -> int {
        let a = self.spec_a();
        let b = self.spec_b();
        clamp_to(a.y + ratio((b.y - a.y) * (x - a.x), b.x - a.x), lower(a.y, b.y), upper(a.y, b.y))
    }

    /// The line through `a` and `b`, its output kept between their heights.
    pub fn new(a: Point, b: Point) -> (r: LinearEvaluator)
        requires
            in_limits(a),
            in_limits(b),
        ensures
            r.spec_a() == normalized(a, b).0,
            r.spec_b() == normalized(a, b).1,
    {
        let (a, b) = normalize(a, b);
        LinearEvaluator { a, b }
    }

    /// The line from 0 at `min` to one at `max`.
    pub fn from_range(min: i64, max: i64) -> (r: LinearEvaluator)
        requires
            -COORD_LIMIT <= min <= COORD_LIMIT,
            -COORD_LIMIT <= max <= COORD_LIMIT,
        ensures
            r.spec_a() == normalized(Point { x: min, y: 0 }, Point { x: max, y: SCALE as i64 }).0,
            r.spec_b() == normalized(Point { x: min, y: 0 }, Point { x: max, y: SCALE as i64 }).1,
    {
        LinearEvaluator::new(Point { x: min, y: 0 }, Point { x: max, y: SCALE as i64 })
    }

    pub fn evaluate(&self, x: i64) -> (r: i64)
        ensures
            r == self.spec_evaluate(x as int),
    {
        proof {
            use_type_invariant(self);
        }
        let dy = self.b.y as i128 - self.a.y as i128;
        let dx = self.b.x as i128 - self.a.x as i128;
        let u = x as i128 - self.a.x as i128;
        assert(-0x100_0000_0000_0000_0000_0000_0000_0000 < dy * u
            < 0x100_0000_0000_0000_0000_0000_0000_0000) by (nonlinear_arith)
            requires
                -2000000000000000 <= dy <= 2000000000000000,
                -10000000000000000000 <= u <= 10000000000000000000,
        ;
        let q = ratio_exec(dy * u, dx);
        let v = self.a.y as i128 + q;
        let (lo, hi) = if self.a.y <= self.b.y {
            (self.a.y, self.b.y)
        } else {
            (self.b.y, self.a.y)
        };
        if v < lo as i128 {
            lo
        } else if v > hi as i128 {
            hi
        } else {
            v as i64
        }
    }
}

impl Default for LinearEvaluator {
    fn default() -> (r: LinearEvaluator)
        ensures
            r.spec_a() == (Point { x: 0, y: 0 }),
            r.spec_b() == (Point { x: SCALE as i64, y: SCALE as i64 }),
    {
        LinearEvaluator::new(Point { x: 0, y: 0 }, Point { x: SCALE as i64, y: SCALE as i64 })
    }
}

/// A power curve from `a` to `b`: the input's position between the two anchors, raised to
/// the power, scales the rise from `a.y` to `b.y`.
#[derive(Clone, Copy, PartialEq, Eq, Structural, Debug)]
pub struct PowerEvaluator {
    a: Point,
    b: Point,
    power: u32,
}

impl PowerEvaluator {
    #[verifier::type_invariant]
    spec fn inv(self) -> bool {
        in_limits(self.a) && in_limits(self.b) && self.a.x < self.b.x && self.power <= MAX_POWER
    }

    pub closed spec fn spec_a(&self) -> Point {
        self.a
    }

    pub closed spec fn spec_b(&self) -> Point {
        self.b
    }

    pub closed spec fn spec_power(&self) -> nat {
        self.power as nat
    }

    pub open spec fn spec_evaluate(&self, x: int) -> int {
        let a = self.spec_a();
        let b = self.spec_b();
        let cx = clamp_to(x, a.x as int, b.x as int);
        let t = (cx - a.x) * SCALE / (b.x - a.x);
        a.y + ratio((b.y - a.y) * power_of(t, self.spec_power()), SCALE as int)
    }

    /// The power curve from `a` to `b`; the power is capped at `MAX_POWER`.
    pub fn new(power: u32, a: Point, b: Point) -> (r: PowerEvaluator)
        requires
            in_limits(a),
            in_limits(b),
        ensures
            r.spec_a() == normalized(a, b).0,
            r.spec_b() == normalized(a, b).1,
            r.spec_power() == capped_power(power),
    {
        let (a, b) = normalize(a, b);
        let power = if power > MAX_POWER {
            MAX_POWER
        } else {
            power
        };
        PowerEvaluator { a, b, power }
    }

    /// The power curve over the unit square.
    pub fn from_power(power: u32) -> (r: PowerEvaluator)
        ensures
            r.spec_a() == (Point { x: 0, y: 0 }),
            r.spec_b() == (Point { x: SCALE as i64, y: SCALE as i64 }),
            r.spec_power() == capped_power(power),
    {
        PowerEvaluator::new(power, Point { x: 0, y: 0 }, Point { x: SCALE as i64, y: SCALE as i64 })
    }

    /// The power curve from 0 at `min` to one at `max`.
    pub fn from_range(power: u32, min: i64, max: i64) -> (r: PowerEvaluator)
        requires
            -COORD_LIMIT <= min <= COORD_LIMIT,
            -COORD_LIMIT <= max <= COORD_LIMIT,
        ensures
            r.spec_a() == normalized(Point { x: min, y: 0 }, Point { x: max, y: SCALE as i64 }).0,
            r.spec_b() == normalized(Point { x: min, y: 0 }, Point { x: max, y: SCALE as i64 }).1,
            r.spec_power() == capped_power(power),
    {
        PowerEvaluator::new(power, Point { x: min, y: 0 }, Point { x: max, y: SCALE as i64 })
    }

    pub fn evaluate(&self, x: i64) -> (r: i64)
        ensures
            r == self.spec_evaluate(x as int),
    {
        proof {
            use_type_invariant(self);
        }
        let cx = if x < self.a.x {
            self.a.x
        } else if x > self.b.x {
            self.b.x
        } else {
            x
        };
        let dx = (self.b.x as i128 - self.a.x as i128) as u128;
        let u = (cx as i128 - self.a.x as i128) as u128;
        assert(u * SCALE <= dx * SCALE) by (nonlinear_arith)
            requires
                u <= dx,
        ;
        assert(u * SCALE / (dx as int) <= SCALE) by (nonlinear_arith)
            requires
                u * SCALE <= dx * SCALE,
                dx > 0,
        ;
        let t = (u * SCALE as u128 / dx) as u64;
        let mut acc: u64 = SCALE as u64;
        let mut i: u32 = 0;
        while i < self.power
            invariant
                i <= self.power,
                t <= SCALE,
                acc <= SCALE,
                acc as int == power_of(t as int, i as nat),
            decreases self.power - i,
        {
            assert(acc * t <= 1000000000 * 1000000000) by (nonlinear_arith)
                requires
                    acc <= 1000000000,
                    t <= 1000000000,
            ;
            assert(acc * t / (SCALE as int) <= acc) by (nonlinear_arith)
                requires
                    t <= SCALE,
            ;
            acc = acc * t / (SCALE as u64);
            i = i + 1;
        }
        let dy = self.b.y as i128 - self.a.y as i128;
        assert(-0x100_0000_0000_0000_0000_0000_0000_0000 < dy * acc
            < 0x100_0000_0000_0000_0000_0000_0000_0000) by (nonlinear_arith)
            requires
                -2000000000000000 <= dy <= 2000000000000000,
                0 <= acc <= 1000000000,
        ;
        assert(-2000000000000000 <= ratio(dy * acc, SCALE as int) <= 2000000000000000) by (
        nonlinear_arith)
            requires
                -2000000000000000 <= dy <= 2000000000000000,
                0 <= acc <= 1000000000,
        ;
        let q = ratio_exec(dy * acc as i128, SCALE as i128);
        (self.a.y as i128 + q) as i64
    }
}

impl Default for PowerEvaluator {
    fn default() -> (r: PowerEvaluator)
        ensures
            r.spec_a() == (Point { x: 0, y: 0 }),
            r.spec_b() == (Point { x: SCALE as i64, y: SCALE as i64 }),
            r.spec_power() == 2,
    {
        PowerEvaluator::from_power(2)
    }
}

/// `|v|`.
pub open spec fn abs(v: int) -> int {
    if v < 0 {
        -v
    } else {
        v
    }
}

/// `ratio(n, d)` lies within `m` of zero when `n` lies within `m * d`.
pub proof fn lemma_ratio_within(n: int, d: int, m: int)
    requires
        d > 0,
        m >= 0,
        -m * d <= n <= m * d,
    ensures
        -m <= ratio(n, d) <= m,
{
    assert(-m * d == -(m * d)) by (nonlinear_arith);
    if n >= 0 {
        assert(n / d <= m) by (nonlinear_arith)
            requires
                d > 0,
                n <= m * d,
                n >= 0,
        ;
        assert(n / d >= 0) by (nonlinear_arith)
            requires
                d > 0,
                n >= 0,
        ;
    } else {
        assert((-n) / d <= m) by (nonlinear_arith)
            requires
                d > 0,
                -n <= m * d,
                -n >= 0,
        ;
        assert((-n) / d >= 0) by (nonlinear_arith)
            requires
                d > 0,
                -n >= 0,
        ;
    }
}

/// The largest shape magnitude an exponential or logarithmic curve over a domain of width
/// `dx` keeps: `MAX_SHAPE`, or less where `|k| * dx` would reach one, so that the curve's
/// denominator stays positive.
pub open spec fn shape_cap(dx: int) -> int {
    if (SCALE * SCALE - 1) / dx < MAX_SHAPE {
        (SCALE * SCALE - 1) / dx
    } else {
        MAX_SHAPE as int
    }
}

/// `k` clamped into `[-cap, cap]`.
pub open spec fn clamp_shape(k: int, cap: int) -> int {
    clamp_to(k, -cap, cap)
}

fn shape_cap_exec(dx: i64) -> (r: i64)
    requires
        0 < dx <= 2 * COORD_LIMIT,
    ensures
        r == shape_cap(dx as int),
        0 <= r <= MAX_SHAPE,
        r * dx < SCALE * SCALE,
{
    let c = (SCALE as i128 * SCALE as i128 - 1) / dx as i128;
    assert(((SCALE * SCALE - 1) / (dx as int)) * dx <= SCALE * SCALE - 1) by (nonlinear_arith)
        requires
            dx > 0,
    ;
    assert((SCALE * SCALE - 1) / (dx as int) >= 0) by (nonlinear_arith)
        requires
            dx > 0,
    ;
    if c < MAX_SHAPE as i128 {
        c as i64
    } else {
        assert(MAX_SHAPE * dx <= c * dx) by (nonlinear_arith)
            requires
                MAX_SHAPE <= c,
                dx > 0,
        ;
        MAX_SHAPE
    }
}

/// `ratio(n, d)` lies strictly within `m` of zero when `n` lies strictly within `m * d`.
pub proof fn lemma_ratio_below(n: int, d: int, m: int)
    requires
        d > 0,
        -(m * d) < n < m * d,
    ensures
        -m < ratio(n, d) < m,
{
    if n >= 0 {
        assert(n / d < m) by (nonlinear_arith)
            requires
                d > 0,
                n < m * d,
                n >= 0,
        ;
        assert(n / d >= 0) by (nonlinear_arith)
            requires
                d > 0,
                n >= 0,
        ;
    } else {
        assert((-n) / d < m) by (nonlinear_arith)
            requires
                d > 0,
                -n < m * d,
                -n >= 0,
        ;
        assert((-n) / d >= 0) by (nonlinear_arith)
            requires
                d > 0,
                -n >= 0,
        ;
    }
}

/// `(m * v) / m` is `v`, for positive `m`, and so `ratio` cancels a common positive factor.
pub proof fn lemma_ratio_cancel(m: int, v: int)
    requires
        m > 0,
    ensures
        ratio(m * v, m) == v,
{
    if v >= 0 {
        assert((m * v) / m == v) by (nonlinear_arith)
            requires
                m > 0,
        ;
        assert(m * v >= 0) by (nonlinear_arith)
            requires
                m > 0,
                v >= 0,
        ;
    } else {
        assert((m * (-v)) / m == -v) by (nonlinear_arith)
            requires
                m > 0,
        ;
        assert(-(m * v) == m * (-v)) by (nonlinear_arith);
        assert(m * v < 0) by (nonlinear_arith)
            requires
                m > 0,
                v < 0,
        ;
    }
}

/// A sigmoid with a shape in `[-MAX_SHAPE, MAX_SHAPE]` passes through both of its anchors.
pub proof fn lemma_sigmoid_anchors(a: Point, b: Point, k: int)
    requires
        a.x < b.x,
        -MAX_SHAPE <= k <= MAX_SHAPE,
    ensures
        sigmoid_at(a, b, k, a.x as int) == a.y,
        sigmoid_at(a, b, k, b.x as int) == b.y,
{
    let d = b.x - a.x;
    let sc = SCALE as int;
    let m = sc * (sc - k);
    assert(m > 0) by (nonlinear_arith)
        requires
            m == sc * (sc - k),
            sc == 1000000000,
            k <= 999990000,
    ;
    assert((2 * a.x - a.x - b.x) * sc == d * (-sc)) by (nonlinear_arith)
        requires
            d == b.x - a.x,
    ;
    assert((2 * b.x - a.x - b.x) * sc == d * sc) by (nonlinear_arith)
        requires
            d == b.x - a.x,
    ;
    lemma_ratio_cancel(d, -sc);
    lemma_ratio_cancel(d, sc);
    assert(sc * sc + k * (sc - 2 * sc) == m) by (nonlinear_arith)
        requires
            m == sc * (sc - k),
    ;
    assert(-sc * (sc - k) * sc == m * (-sc)) by (nonlinear_arith)
        requires
            m == sc * (sc - k),
    ;
    assert(sc * (sc - k) * sc == m * sc) by (nonlinear_arith)
        requires
            m == sc * (sc - k),
    ;
    lemma_ratio_cancel(m, -sc);
    lemma_ratio_cancel(m, sc);
    assert((a.y + b.y) * sc + (b.y - a.y) * (-sc) == (2 * sc) * a.y) by (nonlinear_arith);
    assert((a.y + b.y) * sc + (b.y - a.y) * sc == (2 * sc) * b.y) by (nonlinear_arith);
    lemma_ratio_cancel(2 * sc, a.y as int);
    lemma_ratio_cancel(2 * sc, b.y as int);
}

/// The sigmoid from `a` to `b` with shape `k`, at `x`: the input's position between the
/// anchors, from -1 to 1, is bent by `z * (1 - k) / (1 + k * (1 - 2 * |z|))` and then
/// scaled to the heights.
pub open spec fn sigmoid_at(a: Point, b: Point, k: int, x: int) -> int {
    let cx = clamp_to(x, a.x as int, b.x as int);
    let z = ratio((2 * cx - a.x - b.x) * SCALE, b.x - a.x);
    let num = z * (SCALE - k);
    let den = SCALE * SCALE + k * (SCALE - 2 * abs(z));
    let q = clamp_to(ratio(num * SCALE, den), -SCALE, SCALE as int);
    clamp_to(ratio((a.y + b.y) * SCALE + (b.y - a.y) * q, 2 * SCALE), lower(a.y, b.y), upper(a.y, b.y))
}

/// The sigmoid between two points, steeper or flatter by the shape `k` in `(-1, 1)`.
#[derive(Clone, Copy, PartialEq, Eq, Structural, Debug)]
pub struct SigmoidEvaluator {
    a: Point,
    b: Point,
    k: i64,
}

impl SigmoidEvaluator {
    #[verifier::type_invariant]
    spec fn inv(self) -> bool {
        in_limits(self.a) && in_limits(self.b) && self.a.x < self.b.x && -MAX_SHAPE <= self.k
            <= MAX_SHAPE
    }

    pub closed spec fn spec_a(&self) -> Point {
        self.a
    }

    pub closed spec fn spec_b(&self) -> Point {
        self.b
    }

    pub closed spec fn spec_k(&self) -> int {
        self.k as int
    }

    pub open spec fn spec_evaluate(&self, x: int) -> int {
        sigmoid_at(self.spec_a(), self.spec_b(), self.spec_k(), x)
    }

    /// The sigmoid from `a` to `b`; the shape is clamped to `[-MAX_SHAPE, MAX_SHAPE]`.
    pub fn new(k: i64, a: Point, b: Point) -> (r: SigmoidEvaluator)
        requires
            in_limits(a),
            in_limits(b),
        ensures
            r.spec_a() == normalized(a, b).0,
            r.spec_b() == normalized(a, b).1,
            r.spec_k() == clamp_to(k as int, -MAX_SHAPE, MAX_SHAPE as int),
            r.spec_evaluate(r.spec_a().x as int) == r.spec_a().y,
            r.spec_evaluate(r.spec_b().x as int) == r.spec_b().y,
    {
        let (a, b) = normalize(a, b);
        proof {
            lemma_sigmoid_anchors(a, b, clamp_to(k as int, -MAX_SHAPE, MAX_SHAPE as int));
        }
        let k = if k < -MAX_SHAPE {
            -MAX_SHAPE
        } else if k > MAX_SHAPE {
            MAX_SHAPE
        } else {
            k
        };
        SigmoidEvaluator { a, b, k }
    }

    /// The sigmoid over the unit square.
    pub fn from_k(k: i64) -> (r: SigmoidEvaluator)
        ensures
            r.spec_a() == (Point { x: 0, y: 0 }),
            r.spec_b() == (Point { x: SCALE as i64, y: SCALE as i64 }),
            r.spec_k() == clamp_to(k as int, -MAX_SHAPE, MAX_SHAPE as int),
    {
        SigmoidEvaluator::new(k, Point { x: 0, y: 0 }, Point { x: SCALE as i64, y: SCALE as i64 })
    }

    /// The sigmoid from 0 at `min` to one at `max`.
    pub fn from_range(k: i64, min: i64, max: i64) -> (r: SigmoidEvaluator)
        requires
            -COORD_LIMIT <= min <= COORD_LIMIT,
            -COORD_LIMIT <= max <= COORD_LIMIT,
        ensures
            r.spec_a() == normalized(Point { x: min, y: 0 }, Point { x: max, y: SCALE as i64 }).0,
            r.spec_b() == normalized(Point { x: min, y: 0 }, Point { x: max, y: SCALE as i64 }).1,
            r.spec_k() == clamp_to(k as int, -MAX_SHAPE, MAX_SHAPE as int),
    {
        SigmoidEvaluator::new(k, Point { x: min, y: 0 }, Point { x: max, y: SCALE as i64 })
    }

    pub fn evaluate(&self, x: i64) -> (r: i64)
        ensures
            r == self.spec_evaluate(x as int),
    {
        proof {
            use_type_invariant(self);
        }
        let (x0, x1, y0, y1, k) = (
            self.a.x as i128,
            self.b.x as i128,
            self.a.y as i128,
            self.b.y as i128,
            self.k as i128,
        );
        let cx: i128 = if (x as i128) < x0 {
            x0
        } else if (x as i128) > x1 {
            x1
        } else {
            x as i128
        };
        let s = SCALE as i128;
        let dx = x1 - x0;
        assert(-(SCALE as int) * dx <= (2 * cx - x0 - x1) * SCALE <= SCALE * dx) by (nonlinear_arith)
            requires
                x0 <= cx <= x1,
                dx == x1 - x0,
        ;
        proof {
            lemma_ratio_within((2 * cx - x0 - x1) * SCALE, dx as int, SCALE as int);
        }
        let z = ratio_exec((2 * cx - x0 - x1) * s, dx);
        assert(-1000000000 <= z <= 1000000000);
        assert(-2000000000000000000 <= z * (s - k) <= 2000000000000000000) by (nonlinear_arith)
            requires
                -1000000000 <= z <= 1000000000,
                0 <= s - k <= 2000000000,
        ;
        let num = z * (s - k);
        let z_abs = if z < 0 {
            -z
        } else {
            z
        };
        let t = s - 2 * z_abs;
        assert(-1000000000000000000 <= k * t <= 1000000000000000000) by (nonlinear_arith)
            requires
                -1000000000 <= k <= 1000000000,
                -1000000000 <= t <= 1000000000,
        ;
        assert(-999990000000000000 <= k * t <= 999990000000000000) by (nonlinear_arith)
            requires
                -999990000 <= k <= 999990000,
                -1000000000 <= t <= 1000000000,
        ;
        let den = s * s + k * t;
        let raw = ratio_exec(num * s, den);
        let q: i128 = if raw < -s {
            -s
        } else if raw > s {
            s
        } else {
            raw
        };
        assert(-2000000000000000000000 <= (y1 - y0) * q <= 2000000000000000000000) by (
        nonlinear_arith)
            requires
                -2000000000000 <= y1 - y0 <= 2000000000000,
                -1000000000 <= q <= 1000000000,
        ;
        let v = ratio_exec((y0 + y1) * s + (y1 - y0) * q, 2 * s);
        let (lo, hi) = if self.a.y <= self.b.y {
            (self.a.y, self.b.y)
        } else {
            (self.b.y, self.a.y)
        };
        if v < lo as i128 {
            lo
        } else if v > hi as i128 {
            hi
        } else {
            v as i64
        }
    }
}

impl Default for SigmoidEvaluator {
    fn default() -> (r: SigmoidEvaluator)
        ensures
            r.spec_a() == (Point { x: 0, y: 0 }),
            r.spec_b() == (Point { x: SCALE as i64, y: SCALE as i64 }),
            r.spec_k() == -500000000,
    {
        SigmoidEvaluator::from_k(-500000000)
    }
}

/// An exponential-like curve between two points: the rise is divided by `1 + k * (b.x - x)`.
#[derive(Clone, Copy, PartialEq, Eq, Structural, Debug)]
pub struct ExponentialEvaluator {
    a: Point,
    b: Point,
    k: i64,
}

impl ExponentialEvaluator {
    #[verifier::type_invariant]
    spec fn inv(self) -> bool {
        in_limits(self.a) && in_limits(self.b) && self.a.x < self.b.x
            && -shape_cap(self.b.x - self.a.x) <= self.k <= shape_cap(self.b.x - self.a.x)
    }

    pub closed spec fn spec_a(&self) -> Point {
        self.a
    }

    pub closed spec fn spec_b(&self) -> Point {
        self.b
    }

    pub closed spec fn spec_k(&self) -> int {
        self.k as int
    }

    pub open spec fn spec_evaluate(&self, x: int) -> int {
        let a = self.spec_a();
        let b = self.spec_b();
        let cx = clamp_to(x, a.x as int, b.x as int);
        let den = SCALE + ratio(self.spec_k() * (b.x - cx), SCALE as int);
        clamp_to(
            a.y + ratio((cx - a.x) * (b.y - a.y) * SCALE, (b.x - a.x) * den),
            i64::MIN as int,
            i64::MAX as int,
        )
    }

    /// The curve from `a` to `b`. The shape is clamped to `[-MAX_SHAPE, MAX_SHAPE]`, and on
    /// domains wider than one further to below `1 / (b.x - a.x)`, where the curve's denominator
    /// would reach zero. Results beyond `i64` saturate.
    pub fn new(k: i64, a: Point, b: Point) -> (r: ExponentialEvaluator)
        requires
            in_limits(a),
            in_limits(b),
        ensures
            r.spec_a() == normalized(a, b).0,
            r.spec_b() == normalized(a, b).1,
            r.spec_k() == clamp_shape(k as int, shape_cap(normalized(a, b).1.x - normalized(a, b).0.x)),
    {
        let (a, b) = normalize(a, b);
        let cap = shape_cap_exec(b.x - a.x);
        let k = if k < -cap {
            -cap
        } else if k > cap {
            cap
        } else {
            k
        };
        ExponentialEvaluator { a, b, k }
    }

    /// The curve over the unit square.
    pub fn from_k(k: i64) -> (r: ExponentialEvaluator)
        ensures
            r.spec_a() == (Point { x: 0, y: 0 }),
            r.spec_b() == (Point { x: SCALE as i64, y: SCALE as i64 }),
            r.spec_k() == clamp_shape(k as int, MAX_SHAPE as int),
    {
        assert((1000000000 * 1000000000 - 1) / 1000000000int == 999999999);
        ExponentialEvaluator::new(k, Point { x: 0, y: 0 }, Point { x: SCALE as i64, y: SCALE as i64 })
    }

    /// The curve from 0 at `min` to one at `max`.
    pub fn from_range(k: i64, min: i64, max: i64) -> (r: ExponentialEvaluator)
        requires
            -COORD_LIMIT <= min <= COORD_LIMIT,
            -COORD_LIMIT <= max <= COORD_LIMIT,
        ensures
            r.spec_a() == normalized(Point { x: min, y: 0 }, Point { x: max, y: SCALE as i64 }).0,
            r.spec_b() == normalized(Point { x: min, y: 0 }, Point { x: max, y: SCALE as i64 }).1,
            r.spec_k() == clamp_shape(k as int, shape_cap(
                normalized(Point { x: min, y: 0 }, Point { x: max, y: SCALE as i64 }).1.x - normalized(Point { x: min, y: 0 }, Point { x: max, y: SCALE as i64 }).0.x,
            )),
    {
        ExponentialEvaluator::new(k, Point { x: min, y: 0 }, Point { x: max, y: SCALE as i64 })
    }

    pub fn evaluate(&self, x: i64) -> (r: i64)
        ensures
            r == self.spec_evaluate(x as int),
    {
        proof {
            use_type_invariant(self);
        }
        let (x0, x1, y0, y1, k) = (
            self.a.x as i128,
            self.b.x as i128,
            self.a.y as i128,
            self.b.y as i128,
            self.k as i128,
        );
        let cx: i128 = if (x as i128) < x0 {
            x0
        } else if (x as i128) > x1 {
            x1
        } else {
            x as i128
        };
        let s = SCALE as i128;
        let dx = x1 - x0;
        let dist = x1 - cx;
        let ghost cap = shape_cap(dx as int);
        let c = shape_cap_exec(dx as i64);
        assert(-(SCALE * SCALE) < k * dist < SCALE * SCALE) by (nonlinear_arith)
            requires
                0 <= dist <= dx,
                -cap <= k <= cap,
                cap * dx < SCALE * SCALE,
                cap >= 0,
        ;
        proof {
            lemma_ratio_below(k * dist, SCALE as int, SCALE as int);
        }
        let den = s + ratio_exec(k * dist, s);
        assert(1 <= den < 2000000000);
        assert(-4000000000000000000000000 <= (cx - x0) * (y1 - y0) <= 4000000000000000000000000) by (
        nonlinear_arith)
            requires
                0 <= cx - x0 <= 2000000000000,
                -2000000000000 <= y1 - y0 <= 2000000000000,
        ;
        let n = (cx - x0) * (y1 - y0) * s;
        assert(0 < dx * den <= 4000000000000000000000) by (nonlinear_arith)
            requires
                0 < dx <= 2000000000000,
                1 <= den <= 2000000000,
        ;
        assert(-4000000000000000000000000000000000 <= n <= 4000000000000000000000000000000000);
        proof {
            lemma_ratio_within(n as int, dx * den, 4000000000000000000000000000000000);
        }
        let q = ratio_exec(n, dx * den);
        let v = y0 + q;
        if v < i64::MIN as i128 {
            i64::MIN
        } else if v > i64::MAX as i128 {
            i64::MAX
        } else {
            v as i64
        }
    }
}

impl Default for ExponentialEvaluator {
    fn default() -> (r: ExponentialEvaluator)
        ensures
            r.spec_a() == (Point { x: 0, y: 0 }),
            r.spec_b() == (Point { x: SCALE as i64, y: SCALE as i64 }),
            r.spec_k() == -500000000,
    {
        ExponentialEvaluator::from_k(-500000000)
    }
}

/// A logarithmic-like curve between two points: the rise is divided by `1 + k * (x - a.x)`.
#[derive(Clone, Copy, PartialEq, Eq, Structural, Debug)]
pub struct LogarithmicEvaluator {
    a: Point,
    b: Point,
    k: i64,
}

impl LogarithmicEvaluator {
    #[verifier::type_invariant]
    spec fn inv(self) -> bool {
        in_limits(self.a) && in_limits(self.b) && self.a.x < self.b.x
            && -shape_cap(self.b.x - self.a.x) <= self.k <= shape_cap(self.b.x - self.a.x)
    }

    pub closed spec fn spec_a(&self) -> Point {
        self.a
    }

    pub closed spec fn spec_b(&self) -> Point {
        self.b
    }

    pub closed spec fn spec_k(&self) -> int {
        self.k as int
    }

    pub open spec fn spec_evaluate(&self, x: int) -> int {
        let a = self.spec_a();
        let b = self.spec_b();
        let cx = clamp_to(x, a.x as int, b.x as int);
        let den = SCALE + ratio(self.spec_k() * (cx - a.x), SCALE as int);
        clamp_to(
            a.y + ratio((cx - a.x) * (b.y - a.y) * SCALE, (b.x - a.x) * den),
            i64::MIN as int,
            i64::MAX as int,
        )
    }

    /// The curve from `a` to `b`. The shape is clamped to `[-MAX_SHAPE, MAX_SHAPE]`, and on
    /// domains wider than one further to below `1 / (b.x - a.x)`, where the curve's denominator
    /// would reach zero. Results beyond `i64` saturate.
    pub fn new(k: i64, a: Point, b: Point) -> (r: LogarithmicEvaluator)
        requires
            in_limits(a),
            in_limits(b),
        ensures
            r.spec_a() == normalized(a, b).0,
            r.spec_b() == normalized(a, b).1,
            r.spec_k() == clamp_shape(k as int, shape_cap(normalized(a, b).1.x - normalized(a, b).0.x)),
    {
        let (a, b) = normalize(a, b);
        let cap = shape_cap_exec(b.x - a.x);
        let k = if k < -cap {
            -cap
        } else if k > cap {
            cap
        } else {
            k
        };
        LogarithmicEvaluator { a, b, k }
    }

    /// The curve over the unit square.
    pub fn from_k(k: i64) -> (r: LogarithmicEvaluator)
        ensures
            r.spec_a() == (Point { x: 0, y: 0 }),
            r.spec_b() == (Point { x: SCALE as i64, y: SCALE as i64 }),
            r.spec_k() == clamp_shape(k as int, MAX_SHAPE as int),
    {
        assert((1000000000 * 1000000000 - 1) / 1000000000int == 999999999);
        LogarithmicEvaluator::new(k, Point { x: 0, y: 0 }, Point { x: SCALE as i64, y: SCALE as i64 })
    }

    /// The curve from 0 at `min` to one at `max`.
    pub fn from_range(k: i64, min: i64, max: i64) -> (r: LogarithmicEvaluator)
        requires
            -COORD_LIMIT <= min <= COORD_LIMIT,
            -COORD_LIMIT <= max <= COORD_LIMIT,
        ensures
            r.spec_a() == normalized(Point { x: min, y: 0 }, Point { x: max, y: SCALE as i64 }).0,
            r.spec_b() == normalized(Point { x: min, y: 0 }, Point { x: max, y: SCALE as i64 }).1,
            r.spec_k() == clamp_shape(k as int, shape_cap(
                normalized(Point { x: min, y: 0 }, Point { x: max, y: SCALE as i64 }).1.x - normalized(Point { x: min, y: 0 }, Point { x: max, y: SCALE as i64 }).0.x,
            )),
    {
        LogarithmicEvaluator::new(k, Point { x: min, y: 0 }, Point { x: max, y: SCALE as i64 })
    }

    pub fn evaluate(&self, x: i64) -> (r: i64)
        ensures
            r == self.spec_evaluate(x as int),
    {
        proof {
            use_type_invariant(self);
        }
        let (x0, x1, y0, y1, k) = (
            self.a.x as i128,
            self.b.x as i128,
            self.a.y as i128,
            self.b.y as i128,
            self.k as i128,
        );
        let cx: i128 = if (x as i128) < x0 {
            x0
        } else if (x as i128) > x1 {
            x1
        } else {
            x as i128
        };
        let s = SCALE as i128;
        let dx = x1 - x0;
        let dist = cx - x0;
        let ghost cap = shape_cap(dx as int);
        let c = shape_cap_exec(dx as i64);
        assert(-(SCALE * SCALE) < k * dist < SCALE * SCALE) by (nonlinear_arith)
            requires
                0 <= dist <= dx,
                -cap <= k <= cap,
                cap * dx < SCALE * SCALE,
                cap >= 0,
        ;
        proof {
            lemma_ratio_below(k * dist, SCALE as int, SCALE as int);
        }
        let den = s + ratio_exec(k * dist, s);
        assert(1 <= den < 2000000000);
        assert(-4000000000000000000000000 <= (cx - x0) * (y1 - y0) <= 4000000000000000000000000) by (
        nonlinear_arith)
            requires
                0 <= cx - x0 <= 2000000000000,
                -2000000000000 <= y1 - y0 <= 2000000000000,
        ;
        let n = (cx - x0) * (y1 - y0) * s;
        assert(0 < dx * den <= 4000000000000000000000) by (nonlinear_arith)
            requires
                0 < dx <= 2000000000000,
                1 <= den <= 2000000000,
        ;
        assert(-4000000000000000000000000000000000 <= n <= 4000000000000000000000000000000000);
        proof {
            lemma_ratio_within(n as int, dx * den, 4000000000000000000000000000000000);
        }
        let q = ratio_exec(n, dx * den);
        let v = y0 + q;
        if v < i64::MIN as i128 {
            i64::MIN
        } else if v > i64::MAX as i128 {
            i64::MAX
        } else {
            v as i64
        }
    }
}

impl Default for LogarithmicEvaluator {
    fn default() -> (r: LogarithmicEvaluator)
        ensures
            r.spec_a() == (Point { x: 0, y: 0 }),
            r.spec_b() == (Point { x: SCALE as i64, y: SCALE as i64 }),
            r.spec_k() == -500000000,
    {
        LogarithmicEvaluator::from_k(-500000000)
    }
}

/// The curves an [`Evaluated`] aggregator can apply.
#[derive(Clone, Copy, PartialEq, Eq, Structural, Debug)]
pub enum Evaluator {
    Linear(LinearEvaluator),
    Power(PowerEvaluator),
    Sigmoid(SigmoidEvaluator),
    Exponential(ExponentialEvaluator),
    Logarithmic(LogarithmicEvaluator),
}

impl Evaluator {
    pub open spec fn spec_evaluate(&self, x: int) -> int {
        match self {
            Evaluator::Linear(e) => e.spec_evaluate(x),
            Evaluator::Power(e) => e.spec_evaluate(x),
            Evaluator::Sigmoid(e) => e.spec_evaluate(x),
            Evaluator::Exponential(e) => e.spec_evaluate(x),
            Evaluator::Logarithmic(e) => e.spec_evaluate(x),
        }
    }

    pub fn evaluate(&self, x: i64) -> (r: i64)
        ensures
            r == self.spec_evaluate(x as int),
    {
        match self {
            Evaluator::Linear(e) => e.evaluate(x),
            Evaluator::Power(e) => e.evaluate(x),
            Evaluator::Sigmoid(e) => e.evaluate(x),
            Evaluator::Exponential(e) => e.evaluate(x),
            Evaluator::Logarithmic(e) => e.evaluate(x),
        }
    }
}

/// Scores its single child through a response curve.
#[derive(Clone, Copy, PartialEq, Eq, Structural, Debug)]
pub struct Evaluated {
    evaluator: Evaluator,
}

impl Evaluated {
    pub closed spec fn spec_evaluator(&self) -> Evaluator {
        self.evaluator
    }

    /// The score of a node with this aggregator whose only child scores `child`.
    pub open spec fn spec_score(&self, child: int) -> int {
        clamp_unit(self.spec_evaluator().spec_evaluate(child))
    }

    pub fn new(evaluator: Evaluator) -> (r: Evaluated)
        ensures
            r.spec_evaluator() == evaluator,
    {
        Evaluated { evaluator }
    }

    pub fn evaluate(&self, value: i64) -> (r: i64)
        ensures
            r == self.spec_evaluator().spec_evaluate(value as int),
    {
        self.evaluator.evaluate(value)
    }

    pub fn evaluator(&self) -> (r: Evaluator)
        ensures
            r == self.spec_evaluator(),
    {
        self.evaluator
    }

    pub fn set_evaluator(&mut self, evaluator: Evaluator)
        ensures
            final(self).spec_evaluator() == evaluator,
    {
        self.evaluator = evaluator;
    }

    /// The node's new score: the curve applied to the single child's score, or `None`
    /// when there is not exactly one child.
    pub fn aggregate(&self, children: &Vec<Score>) -> (r: Option<Score>)
        ensures
            children.len() != 1 ==> r.is_none(),
            children.len() == 1 ==> r.is_some() && r.unwrap()@ == self.spec_score(
                values(children@)[0],
            ),
    {
        if children.len() != 1 {
            return None;
        }
        let v = self.evaluator.evaluate(children[0].get() as i64);
        Some(Score::new(v))
    }
}

} // verus!
