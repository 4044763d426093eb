//! Exact integer geometry: affine transforms, sizes, rectangles and
//! bounding boxes, plus the aspect-ratio fitting rules used to place
//! images inside a view rectangle.

use vstd::prelude::*;

verus! {

/// Bound on the coordinates and transform entries that the exact
/// arithmetic below accepts; generous enough for any real document
/// while keeping every intermediate product inside `i64`.
pub const MAX_COORD: i64 = 1_000_000_000;

/// Mathematical (unbounded) model of an affine transform.
///
/// Maps a point `(x, y)` to `(a*x + c*y + e, b*x + d*y + f)`.
pub ghost struct TransformM {
    pub a: int,
    pub b: int,
    pub c: int,
    pub d: int,
    pub e: int,
    pub f: int,
}

/// Product of two affine transforms: `m1` applied after `m2`.
pub open spec fn tmul(m1: TransformM, m2: TransformM) -> TransformM {
    TransformM {
        a: m1.a * m2.a + m1.c * m2.b,
        b: m1.b * m2.a + m1.d * m2.b,
        c: m1.a * m2.c + m1.c * m2.d,
        d: m1.b * m2.c + m1.d * m2.d,
        e: m1.a * m2.e + m1.c * m2.f + m1.e,
        f: m1.b * m2.e + m1.d * m2.f + m1.f,
    }
}

/// The identity transform model.
pub open spec fn tidentity() -> TransformM {
    TransformM { a: 1, b: 0, c: 0, d: 1, e: 0, f: 0 }
}

proof fn lemma_bilinear(p: int, q: int, u: int, v: int, w: int, s: int, m: int, n: int)
    ensures
        (p * u + q * v) * m + (p * w + q * s) * n == p * (u * m + w * n) + q * (v * m + s * n),
{
    broadcast use vstd::arithmetic::mul::group_mul_properties;

}

proof fn lemma_bilinear_shift(p: int, q: int, u: int, v: int, w: int, s: int, g: int, h: int, m: int, n: int)
    ensures
        (p * u + q * v) * m + (p * w + q * s) * n + (p * g + q * h) == p * (u * m + w * n + g) + q
            * (v * m + s * n + h),
{
    broadcast use vstd::arithmetic::mul::group_mul_properties;

}

/// Composition of affine transforms is associative, exactly.
pub proof fn lemma_transform_mul_assoc(x: TransformM, y: TransformM, z: TransformM)
    ensures
        tmul(tmul(x, y), z) == tmul(x, tmul(y, z)),
{
    let l = tmul(tmul(x, y), z);
    let r = tmul(x, tmul(y, z));
    lemma_bilinear(x.a, x.c, y.a, y.b, y.c, y.d, z.a, z.b);
    assert(l.a == r.a);
    lemma_bilinear(x.b, x.d, y.a, y.b, y.c, y.d, z.a, z.b);
    assert(l.b == r.b);
    lemma_bilinear(x.a, x.c, y.a, y.b, y.c, y.d, z.c, z.d);
    assert(l.c == r.c);
    lemma_bilinear(x.b, x.d, y.a, y.b, y.c, y.d, z.c, z.d);
    assert(l.d == r.d);
    lemma_bilinear_shift(x.a, x.c, y.a, y.b, y.c, y.d, y.e, y.f, z.e, z.f);
    assert(l.e == r.e);
    lemma_bilinear_shift(x.b, x.d, y.a, y.b, y.c, y.d, y.e, y.f, z.e, z.f);
    assert(l.f == r.f);
}

/// The identity transform is a left and right unit of composition.
pub proof fn lemma_transform_mul_identity(x: TransformM)
    ensures
        tmul(tidentity(), x) == x,
        tmul(x, tidentity()) == x,
{
}

/// An affine transform with exact integer entries.
///
/// Maps a point `(x, y)` to `(a*x + c*y + e, b*x + d*y + f)`.
#[derive(Clone, Copy, PartialEq, Eq, Structural, Debug)]
pub struct Transform {
    pub a: i64,
    pub b: i64,
    pub c: i64,
    pub d: i64,
    pub e: i64,
    pub f: i64,
}

impl View for Transform {
    type V = TransformM;

    open spec fn view(&self) -> TransformM {
        TransformM {
            a: self.a as int,
            b: self.b as int,
            c: self.c as int,
            d: self.d as int,
            e: self.e as int,
            f: self.f as int,
        }
    }
}

/// All entries of `m` lie within `bound`.
pub open spec fn tm_bounded(m: TransformM, bound: int) -> bool {
    &&& -bound <= m.a <= bound
    &&& -bound <= m.b <= bound
    &&& -bound <= m.c <= bound
    &&& -bound <= m.d <= bound
    &&& -bound <= m.e <= bound
    &&& -bound <= m.f <= bound
}

pub(crate) proof fn lemma_mul_bound(p: int, q: int, m: int, n: int)
    requires
        -m <= p <= m,
        -n <= q <= n,
        0 <= m,
        0 <= n,
    ensures
        -(m * n) <= p * q <= m * n,
{
    assert(-(m * n) <= p * q <= m * n) by (nonlinear_arith)
        requires
            -m <= p <= m,
            -n <= q <= n,
            0 <= m,
            0 <= n,
    ;
}

impl Transform {
    /// All entries lie within [`MAX_COORD`].
    pub open spec fn bounded(&self) -> bool {
        tm_bounded(self@, MAX_COORD as int)
    }

    /// Creates a new transform from its six entries.
    pub fn new(a: i64, b: i64, c: i64, d: i64, e: i64, f: i64) -> (r: Transform)
        ensures
            r == (Transform { a, b, c, d, e, f }),
    {
        Transform { a, b, c, d, e, f }
    }

    /// What [`Transform::append`] returns: the exact product when both
    /// operands are bounded, `None` otherwise.
    pub open spec fn append_spec(&self, other: Transform) -> Option<Transform> {
        if self.bounded() && other.bounded() {
            Some(
                Transform {
                    a: (self@.a * other@.a + self@.c * other@.b) as i64,
                    b: (self@.b * other@.a + self@.d * other@.b) as i64,
                    c: (self@.a * other@.c + self@.c * other@.d) as i64,
                    d: (self@.b * other@.c + self@.d * other@.d) as i64,
                    e: (self@.a * other@.e + self@.c * other@.f + self@.e) as i64,
                    f: (self@.b * other@.e + self@.d * other@.f + self@.f) as i64,
                },
            )
        } else {
            None
        }
    }

    /// Appends `other` to this transform: the result applies `other`
    /// first and `self` second.
    ///
    /// Returns `None` exactly when an entry of either operand lies
    /// outside [`MAX_COORD`]; inside that range the exact product
    /// always fits.
    pub fn append(&self, other: &Transform) -> (r: Option<Transform>)
        ensures
            r matches Some(t) ==> t@ == tmul(self@, other@),
            (r is Some) <==> (self.bounded() && other.bounded()),
            r == self.append_spec(*other),
    {
        if !self.in_bounds() || !other.in_bounds() {
            return None;
        }
        proof {
            let g = MAX_COORD as int;
            lemma_mul_bound(self@.a, other@.a, g, g);
            lemma_mul_bound(self@.c, other@.b, g, g);
            lemma_mul_bound(self@.b, other@.a, g, g);
            lemma_mul_bound(self@.d, other@.b, g, g);
            lemma_mul_bound(self@.a, other@.c, g, g);
            lemma_mul_bound(self@.c, other@.d, g, g);
            lemma_mul_bound(self@.b, other@.c, g, g);
            lemma_mul_bound(self@.d, other@.d, g, g);
            lemma_mul_bound(self@.a, other@.e, g, g);
            lemma_mul_bound(self@.c, other@.f, g, g);
            lemma_mul_bound(self@.b, other@.e, g, g);
            lemma_mul_bound(self@.d, other@.f, g, g);
        }
        Some(Transform {
            a: self.a * other.a + self.c * other.b,
            b: self.b * other.a + self.d * other.b,
            c: self.a * other.c + self.c * other.d,
            d: self.b * other.c + self.d * other.d,
            e: self.a * other.e + self.c * other.f + self.e,
            f: self.b * other.e + self.d * other.f + self.f,
        })
    }

    /// Runtime check for [`Transform::bounded`].
    pub fn in_bounds(&self) -> (r: bool)
        ensures
            r == self.bounded(),
    {
        -MAX_COORD <= self.a && self.a <= MAX_COORD && -MAX_COORD <= self.b && self.b <= MAX_COORD
            && -MAX_COORD <= self.c && self.c <= MAX_COORD && -MAX_COORD <= self.d && self.d
            <= MAX_COORD && -MAX_COORD <= self.e && self.e <= MAX_COORD && -MAX_COORD <= self.f
            && self.f <= MAX_COORD
    }

    /// What [`Transform::apply`] returns: the exact image of the point
    /// when the entries and coordinates are in range, `None` otherwise.
    pub open spec fn apply_spec(&self, x: i64, y: i64) -> Option<(i64, i64)> {
        if self.bounded() && -2 * (MAX_COORD as int) <= x <= 2 * (MAX_COORD as int) && -2 * (
        MAX_COORD as int) <= y <= 2 * (MAX_COORD as int) {
            Some(
                (
                    (self@.a * x + self@.c * y + self@.e) as i64,
                    (self@.b * x + self@.d * y + self@.f) as i64,
                ),
            )
        } else {
            None
        }
    }

    /// Applies the transform to the point `(x, y)`.
    ///
    /// Returns `None` exactly when an entry lies outside [`MAX_COORD`]
    /// or a coordinate lies outside twice that bound.
    pub fn apply(&self, x: i64, y: i64) -> (r: Option<(i64, i64)>)
        ensures
            r == self.apply_spec(x, y),
            r matches Some(p) ==> p.0 == self@.a * x + self@.c * y + self@.e && p.1 == self@.b * x
                + self@.d * y + self@.f,
            (r is Some) <==> (self.bounded() && -2 * MAX_COORD <= x <= 2 * MAX_COORD && -2
                * MAX_COORD <= y <= 2 * MAX_COORD),
            r matches Some(p) ==> -5 * (MAX_COORD as int) * (MAX_COORD as int) <= p.0 <= 5 * (
            MAX_COORD as int) * (MAX_COORD as int) && -5 * (MAX_COORD as int) * (MAX_COORD as int)
                <= p.1 <= 5 * (MAX_COORD as int) * (MAX_COORD as int),
    {
        if !self.in_bounds() {
            return None;
        }
        if x < -2 * MAX_COORD || x > 2 * MAX_COORD || y < -2 * MAX_COORD || y > 2 * MAX_COORD {
            return None;
        }
        proof {
            let g = MAX_COORD as int;
            lemma_mul_bound(self@.a, x as int, g, 2 * g);
            lemma_mul_bound(self@.c, y as int, g, 2 * g);
            lemma_mul_bound(self@.b, x as int, g, 2 * g);
            lemma_mul_bound(self@.d, y as int, g, 2 * g);
        }
        Some((self.a * x + self.c * y + self.e, self.b * x + self.d * y + self.f))
    }
}

impl Default for Transform {
    /// The identity transform.
    fn default() -> (r: Self)
        ensures
            r@ == tidentity(),
            r.bounded(),
    {
        Transform { a: 1, b: 0, c: 0, d: 1, e: 0, f: 0 }
    }
}

/// An integer size in pixels; valid when both sides are nonzero.
#[derive(Clone, Copy, PartialEq, Eq, Structural, Debug)]
pub struct ScreenSize {
    pub width: u32,
    pub height: u32,
}

impl ScreenSize {
    /// Both sides are nonzero.
    pub open spec fn valid(&self) -> bool {
        self.width > 0 && self.height > 0
    }

    /// Creates a new size; `None` exactly when a side is zero.
    pub fn new(width: u32, height: u32) -> (r: Option<ScreenSize>)
        ensures
            (r is Some) <==> (width > 0 && height > 0),
            r matches Some(s) ==> s == (ScreenSize { width, height }) && s.valid(),
    {
        if width > 0 && height > 0 {
            Some(ScreenSize { width, height })
        } else {
            None
        }
    }

    /// Returns width and height.
    pub fn dimensions(&self) -> (r: (u32, u32))
        ensures
            r == (self.width, self.height),
    {
        (self.width, self.height)
    }
}

/// An integer rectangle; valid when both sides are positive.
#[derive(Clone, Copy, PartialEq, Eq, Structural, Debug)]
pub struct Rect {
    pub x: i64,
    pub y: i64,
    pub width: i64,
    pub height: i64,
}

impl Rect {
    /// Both sides are positive.
    pub open spec fn valid(&self) -> bool {
        self.width > 0 && self.height > 0
    }

    /// All fields lie within [`MAX_COORD`], the sides nonnegative.
    pub open spec fn bounded(&self) -> bool {
        &&& -MAX_COORD <= self.x <= MAX_COORD
        &&& -MAX_COORD <= self.y <= MAX_COORD
        &&& 0 <= self.width <= MAX_COORD
        &&& 0 <= self.height <= MAX_COORD
    }

    /// Creates a new rectangle; `None` exactly when a side is not positive.
    pub fn new(x: i64, y: i64, width: i64, height: i64) -> (r: Option<Rect>)
        ensures
            (r is Some) <==> (width > 0 && height > 0),
            r matches Some(t) ==> t == (Rect { x, y, width, height }) && t.valid(),
    {
        if width > 0 && height > 0 {
            Some(Rect { x, y, width, height })
        } else {
            None
        }
    }
}

/// An axis-aligned bounding box; either side may have zero extent,
/// but not both.
#[derive(Clone, Copy, PartialEq, Eq, Structural, Debug)]
pub struct PathBbox {
    pub min_x: i64,
    pub min_y: i64,
    pub max_x: i64,
    pub max_y: i64,
}

impl PathBbox {
    /// Ordered on both axes, with a nonzero extent on at least one.
    pub open spec fn valid(&self) -> bool {
        &&& self.min_x <= self.max_x
        &&& self.min_y <= self.max_y
        &&& (self.min_x < self.max_x || self.min_y < self.max_y)
    }
}

/// The smallest box enclosing two boxes.
pub open spec fn bbox_union_spec(a: PathBbox, b: PathBbox) -> PathBbox {
    PathBbox {
        min_x: if a.min_x <= b.min_x { a.min_x } else { b.min_x },
        min_y: if a.min_y <= b.min_y { a.min_y } else { b.min_y },
        max_x: if a.max_x >= b.max_x { a.max_x } else { b.max_x },
        max_y: if a.max_y >= b.max_y { a.max_y } else { b.max_y },
    }
}

/// Exec counterpart of [`bbox_union_spec`].
pub fn bbox_union(a: PathBbox, b: PathBbox) -> (r: PathBbox)
    ensures
        r == bbox_union_spec(a, b),
{
    PathBbox {
        min_x: if a.min_x <= b.min_x { a.min_x } else { b.min_x },
        min_y: if a.min_y <= b.min_y { a.min_y } else { b.min_y },
        max_x: if a.max_x >= b.max_x { a.max_x } else { b.max_x },
        max_y: if a.max_y >= b.max_y { a.max_y } else { b.max_y },
    }
}

/// Alignment anchor of an aspect-ratio rule.
///
/// `NoAlign` stands for the `none` keyword: fit without preserving the
/// aspect ratio.
#[derive(Clone, Copy, PartialEq, Eq, Structural, Debug)]
pub enum Align {
    NoAlign,
    XMinYMin,
    XMidYMin,
    XMaxYMin,
    XMinYMid,
    XMidYMid,
    XMaxYMid,
    XMinYMax,
    XMidYMax,
    XMaxYMax,
}

/// An aspect-ratio rule: alignment anchor plus meet (fit inside) or
/// slice (fill, may overflow).
#[derive(Clone, Copy, PartialEq, Eq, Structural, Debug)]
pub struct AspectRatio {
    pub defer: bool,
    pub align: Align,
    pub slice: bool,
}

impl Default for AspectRatio {
    /// `xMidYMid meet`.
    fn default() -> (r: Self)
        ensures
            r == (AspectRatio { defer: false, align: Align::XMidYMid, slice: false }),
    {
        AspectRatio { defer: false, align: Align::XMidYMid, slice: false }
    }
}

/// A view rectangle plus the aspect-ratio rule that maps content into it.
#[derive(Clone, Copy, PartialEq, Eq, Structural, Debug)]
pub struct ViewBox {
    pub rect: Rect,
    pub aspect: AspectRatio,
}

/// Ceiling division for a nonnegative dividend and positive divisor.
pub open spec fn ceil_div(a: int, b: int) -> int {
    (a + b - 1) / b
}

/// Caps `v` at the largest `u32` value.
pub open spec fn cap_u32(v: int) -> int {
    if v > u32::MAX as int {
        u32::MAX as int
    } else {
        v
    }
}

/// Uniform scaling of `s1` onto `s2`: the result preserves the ratio of
/// `s1`; with `expand` it covers `s2`, without it fits inside `s2`.
/// Fractional results are rounded up and capped at the `u32` range.
pub open spec fn size_scale_spec(s1: ScreenSize, s2: ScreenSize, expand: bool) -> ScreenSize {
    let rw = cap_u32(ceil_div(s2.height as int * s1.width as int, s1.height as int));
    let with_h = if expand {
        rw <= s2.width as int
    } else {
        rw >= s2.width as int
    };
    if !with_h {
        ScreenSize { width: rw as u32, height: s2.height }
    } else {
        let rh = cap_u32(ceil_div(s2.width as int * s1.height as int, s1.width as int));
        ScreenSize { width: s2.width, height: rh as u32 }
    }
}

/// Exact ceiling division of `u64` values; the divisor must be positive
/// and the dividend small enough that adding the divisor cannot overflow.
fn ceil_div_u64(a: u64, b: u64) -> (r: u64)
    requires
        b > 0,
        a + b - 1 <= u64::MAX,
    ensures
        r == ceil_div(a as int, b as int),
{
    (a + (b - 1)) / b
}

/// Exec counterpart of [`size_scale_spec`].
fn size_scale(s1: ScreenSize, s2: ScreenSize, expand: bool) -> (r: ScreenSize)
    requires
        s1.valid(),
        s2.valid(),
    ensures
        r == size_scale_spec(s1, s2, expand),
        r.valid(),
{
    proof {
        lemma_mul_bound(s2.height as int, s1.width as int, u32::MAX as int, u32::MAX as int);
        lemma_mul_bound(s2.width as int, s1.height as int, u32::MAX as int, u32::MAX as int);
    }
    let rw_wide: u64 = ceil_div_u64((s2.height as u64) * (s1.width as u64), s1.height as u64);
    let rw: u32 = if rw_wide > (u32::MAX as u64) {
        u32::MAX
    } else {
        rw_wide as u32
    };
    assert(rw as int == cap_u32(ceil_div(s2.height as int * s1.width as int, s1.height as int)));
    assert(rw >= 1) by {
        assert(s2.height as int * s1.width as int >= 1) by (nonlinear_arith)
            requires
                s2.height >= 1,
                s1.width >= 1,
        ;
        assert(ceil_div(s2.height as int * s1.width as int, s1.height as int) >= 1) by (
        nonlinear_arith)
            requires
                s2.height as int * s1.width as int >= 1,
                s1.height >= 1,
        ;
    };
    let with_h = if expand {
        rw <= s2.width
    } else {
        rw >= s2.width
    };
    if !with_h {
        ScreenSize { width: rw, height: s2.height }
    } else {
        let rh_wide: u64 = ceil_div_u64((s2.width as u64) * (s1.height as u64), s1.width as u64);
        let rh: u32 = if rh_wide > (u32::MAX as u64) {
            u32::MAX
        } else {
            rh_wide as u32
        };
        assert(rh as int == cap_u32(ceil_div(s2.width as int * s1.height as int, s1.width as int)));
        assert(rh >= 1) by {
            assert(s2.width as int * s1.height as int >= 1) by (nonlinear_arith)
                requires
                    s2.width >= 1,
                    s1.height >= 1,
            ;
            assert(ceil_div(s2.width as int * s1.height as int, s1.width as int) >= 1) by (
            nonlinear_arith)
                requires
                    s2.width as int * s1.height as int >= 1,
                    s1.width >= 1,
            ;
        };
        ScreenSize { width: s2.width, height: rh }
    }
}

/// How a source of size `size` is fitted into the view box `vb`:
/// `none` alignment stretches to the view rectangle; otherwise a
/// uniform scale fits inside (meet) or covers (slice) the rectangle.
pub open spec fn fit_view_box_spec(size: ScreenSize, vb: ViewBox) -> ScreenSize {
    if vb.aspect.align is NoAlign {
        ScreenSize { width: vb.rect.width as u32, height: vb.rect.height as u32 }
    } else if vb.aspect.slice {
        size_scale_spec(size, ScreenSize { width: vb.rect.width as u32, height: vb.rect.height as u32 }, true)
    } else {
        size_scale_spec(size, ScreenSize { width: vb.rect.width as u32, height: vb.rect.height as u32 }, false)
    }
}

impl ScreenSize {
    /// Fits this size into a view box under its aspect-ratio rule.
    pub fn fit_view_box(&self, vb: &ViewBox) -> (r: ScreenSize)
        requires
            self.valid(),
            vb.rect.valid(),
            vb.rect.bounded(),
        ensures
            r == fit_view_box_spec(*self, *vb),
            r.valid(),
    {
        let s = ScreenSize { width: vb.rect.width as u32, height: vb.rect.height as u32 };
        match vb.aspect.align {
            Align::NoAlign => s,
            _ => {
                if vb.aspect.slice {
                    size_scale(*self, s, true)
                } else {
                    size_scale(*self, s, false)
                }
            },
        }
    }
}

/// Half of `v`, rounded toward zero.
pub open spec fn half(v: int) -> int {
    if v >= 0 {
        v / 2
    } else {
        -((-v) / 2)
    }
}

/// Exec counterpart of [`half`].
fn half_exec(v: i64) -> (r: i64)
    requires
        i64::MIN < v,
    ensures
        r == half(v as int),
{
    if v >= 0 {
        v / 2
    } else {
        -((-v) / 2)
    }
}

/// The anchored position of content of leftover extent `(w, h)` inside
/// an area whose origin is `(x, y)`: minimum alignment keeps the
/// origin, middle splits the leftover, maximum consumes it.
pub open spec fn aligned_pos_spec(align: Align, x: int, y: int, w: int, h: int) -> (int, int) {
    match align {
        Align::NoAlign => (x, y),
        Align::XMinYMin => (x, y),
        Align::XMidYMin => (x + half(w), y),
        Align::XMaxYMin => (x + w, y),
        Align::XMinYMid => (x, y + half(h)),
        Align::XMidYMid => (x + half(w), y + half(h)),
        Align::XMaxYMid => (x + w, y + half(h)),
        Align::XMinYMax => (x, y + h),
        Align::XMidYMax => (x + half(w), y + h),
        Align::XMaxYMax => (x + w, y + h),
    }
}

/// Exec counterpart of [`aligned_pos_spec`].
pub fn aligned_pos(align: Align, x: i64, y: i64, w: i64, h: i64) -> (r: (i64, i64))
    requires
        -MAX_COORD <= x <= MAX_COORD,
        -MAX_COORD <= y <= MAX_COORD,
        -10 * MAX_COORD <= w <= 10 * MAX_COORD,
        -10 * MAX_COORD <= h <= 10 * MAX_COORD,
    ensures
        (r.0 as int, r.1 as int) == aligned_pos_spec(align, x as int, y as int, w as int, h as int),
{
    match align {
        Align::NoAlign => (x, y),
        Align::XMinYMin => (x, y),
        Align::XMidYMin => (x + half_exec(w), y),
        Align::XMaxYMin => (x + w, y),
        Align::XMinYMid => (x, y + half_exec(h)),
        Align::XMidYMid => (x + half_exec(w), y + half_exec(h)),
        Align::XMaxYMid => (x + w, y + half_exec(h)),
        Align::XMinYMax => (x, y + h),
        Align::XMidYMax => (x + half_exec(w), y + h),
        Align::XMaxYMax => (x + w, y + h),
    }
}

} // verus!
