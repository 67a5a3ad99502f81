//! Exact geometry: points and extents are fractions `num / den` of a layout
//! unit, with one positive denominator for both coordinates, kept in lowest
//! terms where they are computed.
use vstd::prelude::*;

use crate::fraction::{lemma_reduced, lowest, reduce, reduced};

verus! {

/// A point or an offset `(x / den, y / den)`.
#[derive(Clone, Copy, Debug, PartialEq, Eq, Structural)]
pub struct Vector2 {
    pub x: i64,
    pub y: i64,
    pub den: i64,
}

/// The extent `(x / den, y / den)` of a box.
#[derive(Clone, Copy, Debug, PartialEq, Eq, Structural)]
pub struct Size {
    pub x: i64,
    pub y: i64,
    pub den: i64,
}

impl Vector2 {
    pub open spec fn wf(&self) -> bool {
        self.den > 0
    }

    /// The point at whole units `(x, y)`.
    pub fn whole(x: i64, y: i64) -> (r: Vector2)
        ensures
            r == (Vector2 { x, y, den: 1 }),
    {
        Vector2 { x, y, den: 1 }
    }

    /// The parts `x`, `y`, `den`.
    pub open spec fn parts(&self) -> Seq<int> {
        seq![self.x as int, self.y as int, self.den as int]
    }

    /// `p - offset` over the denominator `p.den * offset.den`, not yet
    /// reduced.
    pub open spec fn translated_parts(p: Vector2, offset: Vector2) -> Seq<int> {
        seq![
            p.x * offset.den - offset.x * p.den,
            p.y * offset.den - offset.y * p.den,
            p.den * offset.den,
        ]
    }

    /// `p - offset` in lowest terms can be written with `i64` parts.
    pub open spec fn translation_fits(p: Vector2, offset: Vector2) -> bool {
        fits_i64(reduced(Self::translated_parts(p, offset)))
    }

    /// The point `p` as seen from a box whose corner is at `offset`, exactly
    /// and in lowest terms.
    pub open spec fn translated(p: Vector2, offset: Vector2) -> Vector2 {
        point_of(reduced(Self::translated_parts(p, offset)))
    }

    /// `p - offset` in lowest terms, where it can be written with `i64` parts.
    pub fn translate(p: Vector2, offset: Vector2) -> (r: Option<Vector2>)
        requires
            p.wf(),
            offset.wf(),
        ensures
            r is Some <==> Self::translation_fits(p, offset),
            r is Some ==> r->0 == Self::translated(p, offset) && r->0.wf() && lowest(r->0.parts()),
    {
        proof {
            mul_bound(p.x as int, offset.den as int);
            mul_bound(offset.x as int, p.den as int);
            mul_bound(p.y as int, offset.den as int);
            mul_bound(offset.y as int, p.den as int);
            mul_bound(p.den as int, offset.den as int);
            assert(p.den * offset.den > 0) by (nonlinear_arith)
                requires p.den > 0, offset.den > 0;
        }
        let x: i128 = p.x as i128 * offset.den as i128 - offset.x as i128 * p.den as i128;
        let y: i128 = p.y as i128 * offset.den as i128 - offset.y as i128 * p.den as i128;
        let den: i128 = p.den as i128 * offset.den as i128;
        let v = vec![x, y, den];
        let ghost t = Self::translated_parts(p, offset);
        proof {
            assert(v@.map_values(|a: i128| a as int) =~= t);
            assert(t[2] != 0);
        }
        let r = reduce(&v);
        proof {
            lemma_reduced(t, 2);
            assert(r@.map_values(|a: i128| a as int) =~= reduced(t));
        }
        point_from(&r)
    }
}

/// Every part fits in `i64`.
pub open spec fn fits_i64(s: Seq<int>) -> bool {
    forall|i: int| 0 <= i < s.len() ==> i64::MIN <= #[trigger] s[i] <= i64::MAX
}

/// The point with parts `x`, `y`, `den`.
pub open spec fn point_of(s: Seq<int>) -> Vector2 {
    Vector2 { x: s[0] as i64, y: s[1] as i64, den: s[2] as i64 }
}

/// The extent with parts `x`, `y`, `den`.
pub open spec fn size_of(s: Seq<int>) -> Size {
    Size { x: s[0] as i64, y: s[1] as i64, den: s[2] as i64 }
}

/// The point with these three parts, in lowest terms, where they fit in
/// `i64`.
fn point_from(r: &Vec<i128>) -> (p: Option<Vector2>)
    requires
        r@.len() == 3,
        r@[2] > 0,
        lowest(r@.map_values(|a: i128| a as int)),
    ensures
        p is Some <==> fits_i64(r@.map_values(|a: i128| a as int)),
        p matches Some(q) ==> q == point_of(r@.map_values(|a: i128| a as int)) && q.wf() && lowest(
            q.parts(),
        ),
{
    let ghost s = r@.map_values(|a: i128| a as int);
    let lo = i64::MIN as i128;
    let hi = i64::MAX as i128;
    if r[0] < lo || r[0] > hi || r[1] < lo || r[1] > hi || r[2] > hi {
        proof {
            assert(!fits_i64(s)) by {
                assert(s[0] == r@[0] && s[1] == r@[1] && s[2] == r@[2]);
            }
        }
        None
    } else {
        let q = Vector2 { x: r[0] as i64, y: r[1] as i64, den: r[2] as i64 };
        proof {
            assert(q.parts() =~= s);
        }
        Some(q)
    }
}

/// `s` in lowest terms.
pub fn reduce_size(s: Size) -> (r: Size)
    requires
        s.wf(),
    ensures
        r.parts() == reduced(s.parts()),
        r == size_of(reduced(s.parts())),
        r.wf(),
        lowest(r.parts()),
        r.x <= s.x && r.y <= s.y && r.den <= s.den,
{
    let v = vec![s.x as i128, s.y as i128, s.den as i128];
    let ghost t = s.parts();
    proof {
        assert(v@.map_values(|a: i128| a as int) =~= t);
    }
    let r = reduce(&v);
    proof {
        lemma_reduced(t, 2);
    }
    let q = Size { x: r[0] as i64, y: r[1] as i64, den: r[2] as i64 };
    proof {
        assert(q.parts() =~= reduced(t));
    }
    q
}

impl Size {
    pub open spec fn wf(&self) -> bool {
        self.den > 0 && self.x >= 0 && self.y >= 0
    }

    /// The parts `x`, `y`, `den`.
    pub open spec fn parts(&self) -> Seq<int> {
        seq![self.x as int, self.y as int, self.den as int]
    }

    /// The extent of whole units `(x, y)`.
    pub fn whole(x: i64, y: i64) -> (r: Size)
        ensures
            r == (Size { x, y, den: 1 }),
    {
        Size { x, y, den: 1 }
    }
}

/// `|a * b| < 2^126` for an `i64` value and a positive one.
pub proof fn mul_bound(a: int, b: int)
    requires
        i64::MIN <= a <= i64::MAX,
        0 < b <= i64::MAX,
    ensures
        -0x4000_0000_0000_0000_0000_0000_0000_0000 < a * b < 0x4000_0000_0000_0000_0000_0000_0000_0000,
{
    assert(-0x4000_0000_0000_0000_0000_0000_0000_0000 < a * b < 0x4000_0000_0000_0000_0000_0000_0000_0000)
        by (nonlinear_arith)
        requires
            -0x8000_0000_0000_0000 <= a <= 0x7fff_ffff_ffff_ffff,
            0 < b <= 0x7fff_ffff_ffff_ffff,
    ;
}

/// Whether `point` lies in the box at `offset` of extent `size`, where
/// `offset` and `size` share their denominator: edges included on both sides,
/// so that abutting boxes share their common edge. Compared exactly, by cross
/// multiplication.
pub open spec fn in_box(point: Vector2, offset: Vector2, size: Size) -> bool {
    &&& offset.x * point.den <= point.x * size.den <= (offset.x + size.x) * point.den
    &&& offset.y * point.den <= point.y * size.den <= (offset.y + size.y) * point.den
}

/// Exact inclusive point-in-box test.
pub fn is_point_in_box(point: Vector2, offset: Vector2, size: Size) -> (r: bool)
    requires
        point.wf(),
        size.den > 0,
        offset.den == size.den,
        i64::MIN <= offset.x + size.x <= i64::MAX,
        i64::MIN <= offset.y + size.y <= i64::MAX,
    ensures
        r == in_box(point, offset, size),
{
    proof {
        mul_bound(offset.x as int, point.den as int);
        mul_bound(offset.y as int, point.den as int);
        mul_bound(point.x as int, size.den as int);
        mul_bound(point.y as int, size.den as int);
        mul_bound(offset.x + size.x, point.den as int);
        mul_bound(offset.y + size.y, point.den as int);
    }
    let pd = point.den as i128;
    let sd = size.den as i128;
    let ex = (offset.x + size.x) as i128;
    let ey = (offset.y + size.y) as i128;
    offset.x as i128 * pd <= point.x as i128 * sd && point.x as i128 * sd <= ex * pd
        && offset.y as i128 * pd <= point.y as i128 * sd && point.y as i128 * sd <= ey * pd
}

/// Exact inclusive test of a point already moved into the box's own space.
pub fn is_translated_point_in_box(point: Vector2, size: Size) -> (r: bool)
    requires
        point.wf(),
        size.den > 0,
    ensures
        r == in_box(point, Vector2 { x: 0, y: 0, den: size.den }, size),
{
    is_point_in_box(point, Vector2 { x: 0, y: 0, den: size.den }, size)
}

/// A fraction `num / den` of a length.
#[derive(Clone, Copy, Debug, PartialEq, Eq, Structural)]
pub struct Fraction {
    pub num: u32,
    pub den: u32,
}

impl Fraction {
    pub open spec fn wf(&self) -> bool {
        0 < self.den
    }

    /// The whole length.
    pub fn whole() -> (r: Fraction)
        ensures
            r.wf(),
            r.num == 1 && r.den == 1,
    {
        Fraction { num: 1, den: 1 }
    }
}

/// How much of a cell's area its content occupies, per axis.
#[derive(Clone, Copy, Debug, PartialEq, Eq, Structural)]
pub struct ContentRatio {
    pub x: Fraction,
    pub y: Fraction,
}

impl ContentRatio {
    pub open spec fn wf(&self) -> bool {
        self.x.wf() && self.y.wf()
    }

    pub open spec fn full_spec() -> ContentRatio {
        ContentRatio { x: Fraction { num: 1, den: 1 }, y: Fraction { num: 1, den: 1 } }
    }

    /// Content that fills the whole cell.
    pub fn full() -> (r: ContentRatio)
        ensures
            r == Self::full_spec(),
            r.wf(),
    {
        ContentRatio { x: Fraction::whole(), y: Fraction::whole() }
    }
}

} // verus!
