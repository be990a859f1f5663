//! Axis-aligned rectangles on a plank and the accounting of their areas.

use vstd::prelude::*;

verus! {

/// A free region of a plank, origin at `(x, y)`.
#[derive(Clone, Copy, Debug, PartialEq, Eq, Structural)]
pub struct FreeRect {
    pub x: i64,
    pub y: i64,
    pub width: i64,
    pub height: i64,
}

/// A half-open region `[x, x + w) × [y, y + h)`, as `(x, y, w, h)`.
pub type Zone = (int, int, int, int);

pub open spec fn zones_apart(a: Zone, b: Zone) -> bool {
    a.0 + a.2 <= b.0 || b.0 + b.2 <= a.0 || a.1 + a.3 <= b.1 || b.1 + b.3 <= a.1
}

pub open spec fn zone_inside(a: Zone, b: Zone) -> bool {
    b.0 <= a.0 && a.0 + a.2 <= b.0 + b.2 && b.1 <= a.1 && a.1 + a.3 <= b.1 + b.3
}

/// The region that a rectangle claims once a saw kerf is added on its right
/// and bottom sides.
pub open spec fn grown(x: int, y: int, w: int, h: int, kerf: int) -> Zone {
    (x, y, w + kerf, h + kerf)
}

pub open spec fn free_zone(f: FreeRect, kerf: int) -> Zone {
    grown(f.x as int, f.y as int, f.width as int, f.height as int, kerf)
}

/// The rectangle lies on a `width × height` plank and has a positive extent.
pub open spec fn on_plank(x: int, y: int, w: int, h: int, width: int, height: int) -> bool {
    0 <= x && 0 <= y && 0 < w && 0 < h && x + w <= width && y + h <= height
}

pub open spec fn free_on_plank(f: FreeRect, width: int, height: int) -> bool {
    on_plank(f.x as int, f.y as int, f.width as int, f.height as int, width, height)
}

pub open spec fn free_area(f: FreeRect) -> int {
    f.width * f.height
}

pub open spec fn free_grown_area(f: FreeRect, kerf: int) -> int {
    (f.width + kerf) * (f.height + kerf)
}

pub open spec fn sum_free_area(s: Seq<FreeRect>) -> int
    decreases s.len(),
{
    if s.len() == 0 {
        0
    } else {
        sum_free_area(s.drop_last()) + free_area(s.last())
    }
}

pub open spec fn sum_free_grown_area(s: Seq<FreeRect>, kerf: int) -> int
    decreases s.len(),
{
    if s.len() == 0 {
        0
    } else {
        sum_free_grown_area(s.drop_last(), kerf) + free_grown_area(s.last(), kerf)
    }
}

pub proof fn lemma_sum_free_concat(a: Seq<FreeRect>, b: Seq<FreeRect>, kerf: int)
    ensures
        sum_free_area(a + b) == sum_free_area(a) + sum_free_area(b),
        sum_free_grown_area(a + b, kerf) == sum_free_grown_area(a, kerf) + sum_free_grown_area(b, kerf),
    decreases b.len(),
{
    if b.len() > 0 {
        lemma_sum_free_concat(a, b.drop_last(), kerf);
        assert((a + b).drop_last() =~= a + b.drop_last());
    } else {
        assert(a + b =~= a);
    }
}

pub proof fn lemma_sum_free_remove(s: Seq<FreeRect>, i: int, kerf: int)
    requires
        0 <= i < s.len(),
    ensures
        sum_free_area(s.remove(i)) == sum_free_area(s) - free_area(s[i]),
        sum_free_grown_area(s.remove(i), kerf) == sum_free_grown_area(s, kerf) - free_grown_area(s[i], kerf),
{
    let a = s.subrange(0, i);
    let b = s.subrange(i + 1, s.len() as int);
    assert(s.remove(i) =~= a + b);
    assert(s =~= a.push(s[i]) + b);
    lemma_sum_free_concat(a, b, kerf);
    lemma_sum_free_concat(a.push(s[i]), b, kerf);
    assert(a.push(s[i]).drop_last() =~= a);
}

/// Below this width or height a remainder cannot hold any further cut.
pub const MIN_USEFUL_SIZE: i64 = 30;

/// The split keeps the right remainder at full height when that remainder is
/// larger than the bottom one at full width.
pub open spec fn vertical_first(f: FreeRect, w: i64, h: i64, kerf: i64) -> bool {
    (f.width - w - kerf) * f.height > f.width * (f.height - h - kerf)
}

/// The remainder right of a `w × h` cut placed at the origin of `f`.
pub open spec fn right_part(f: FreeRect, w: i64, h: i64, kerf: i64) -> FreeRect {
    FreeRect {
        x: (f.x + w + kerf) as i64,
        y: f.y,
        width: (f.width - w - kerf) as i64,
        height: if vertical_first(f, w, h, kerf) { f.height } else { h },
    }
}

/// The remainder below a `w × h` cut placed at the origin of `f`.
pub open spec fn bottom_part(f: FreeRect, w: i64, h: i64, kerf: i64) -> FreeRect {
    FreeRect {
        x: f.x,
        y: (f.y + h + kerf) as i64,
        width: if vertical_first(f, w, h, kerf) { w } else { f.width },
        height: (f.height - h - kerf) as i64,
    }
}

pub open spec fn useful(r: FreeRect) -> bool {
    r.width >= MIN_USEFUL_SIZE && r.height >= MIN_USEFUL_SIZE
}

pub open spec fn keep_useful(s: Seq<FreeRect>, r: FreeRect) -> Seq<FreeRect> {
    if useful(r) {
        s.push(r)
    } else {
        s
    }
}

/// The remainders of `f` that stay free after a `w × h` cut at its origin:
/// the right one, then the bottom one, each only when it is useful.
pub open spec fn split_parts(f: FreeRect, w: i64, h: i64, kerf: i64) -> Seq<FreeRect> {
    keep_useful(keep_useful(seq![], right_part(f, w, h, kerf)), bottom_part(f, w, h, kerf))
}

/// Magnitudes for which the arithmetic of a split stays within `i64`.
pub open spec fn split_bounded(f: FreeRect, w: i64, h: i64, kerf: i64) -> bool {
    &&& 0 <= f.x <= 100_000
    &&& 0 <= f.y <= 100_000
    &&& 0 < f.width <= 100_000
    &&& 0 < f.height <= 100_000
    &&& 0 < w <= f.width
    &&& 0 < h <= f.height
    &&& 0 <= kerf <= 100_000
}

/// Splits `f` after a `w × h` cut at its origin (a guillotine cut).
pub fn split_free_rect(f: FreeRect, w: i64, h: i64, kerf: i64) -> (r: Vec<FreeRect>)
    requires
        split_bounded(f, w, h, kerf),
    ensures
        r@ == split_parts(f, w, h, kerf),
{
    let remain_right_w = f.width - w - kerf;
    let remain_bottom_h = f.height - h - kerf;
    assert(-100_000 * 100_000 <= remain_right_w * f.height <= 100_000 * 100_000) by (nonlinear_arith)
        requires
            -100_000 <= remain_right_w <= 100_000,
            0 < f.height <= 100_000,
    ;
    assert(-100_000 * 100_000 <= f.width * remain_bottom_h <= 100_000 * 100_000) by (nonlinear_arith)
        requires
            -100_000 <= remain_bottom_h <= 100_000,
            0 < f.width <= 100_000,
    ;
    let vertical = remain_right_w * f.height > f.width * remain_bottom_h;
    let right = FreeRect {
        x: f.x + w + kerf,
        y: f.y,
        width: remain_right_w,
        height: if vertical { f.height } else { h },
    };
    let bottom = FreeRect {
        x: f.x,
        y: f.y + h + kerf,
        width: if vertical { w } else { f.width },
        height: remain_bottom_h,
    };
    let mut r: Vec<FreeRect> = Vec::new();
    if right.width >= MIN_USEFUL_SIZE && right.height >= MIN_USEFUL_SIZE {
        r.push(right);
    }
    if bottom.width >= MIN_USEFUL_SIZE && bottom.height >= MIN_USEFUL_SIZE {
        r.push(bottom);
    }
    assert(r@ =~= split_parts(f, w, h, kerf));
    r
}

/// The remainders of a split lie inside the split rectangle, apart from the
/// cut and from each other, and the areas add up: with the kerf grown on,
/// the cut and the remainders take no more than the rectangle did, and
/// without it neither do they.
pub proof fn lemma_split_parts(f: FreeRect, w: i64, h: i64, kerf: i64, pw: int, ph: int)
    requires
        split_bounded(f, w, h, kerf),
        free_on_plank(f, pw, ph),
    ensures
        ({
            let parts = split_parts(f, w, h, kerf);
            let cut = grown(f.x as int, f.y as int, w as int, h as int, kerf as int);
            &&& zone_inside(cut, free_zone(f, kerf as int))
            &&& forall|i: int| 0 <= i < parts.len() ==> {
                &&& free_on_plank(#[trigger] parts[i], pw, ph)
                &&& zone_inside(free_zone(parts[i], kerf as int), free_zone(f, kerf as int))
                &&& zones_apart(free_zone(parts[i], kerf as int), cut)
            }
            &&& forall|i: int, j: int| 0 <= i < parts.len() && 0 <= j < parts.len() && i != j
                ==> zones_apart(free_zone(#[trigger] parts[i], kerf as int), free_zone(#[trigger] parts[j], kerf as int))
            &&& (w + kerf) * (h + kerf) + sum_free_grown_area(parts, kerf as int) <= free_grown_area(f, kerf as int)
            &&& w * h + sum_free_area(parts) <= free_area(f)
        }),
{
    let parts = split_parts(f, w, h, kerf);
    let r = right_part(f, w, h, kerf);
    let b = bottom_part(f, w, h, kerf);
    let k = kerf as int;
    let fw = f.width as int;
    let fh = f.height as int;
    let wi = w as int;
    let hi = h as int;
    let rg = if useful(r) { free_grown_area(r, k) } else { 0 };
    let bg = if useful(b) { free_grown_area(b, k) } else { 0 };
    let ra = if useful(r) { free_area(r) } else { 0 };
    let ba = if useful(b) { free_area(b) } else { 0 };
    reveal_with_fuel(sum_free_area, 3);
    reveal_with_fuel(sum_free_grown_area, 3);
    if useful(r) {
        if useful(b) {
            assert(parts =~= seq![r, b]);
            assert(seq![r, b].drop_last() =~= seq![r]);
            assert(seq![r].drop_last() =~= Seq::<FreeRect>::empty());
        } else {
            assert(parts =~= seq![r]);
            assert(seq![r].drop_last() =~= Seq::<FreeRect>::empty());
        }
    } else {
        if useful(b) {
            assert(parts =~= seq![b]);
            assert(seq![b].drop_last() =~= Seq::<FreeRect>::empty());
        } else {
            assert(parts =~= Seq::<FreeRect>::empty());
        }
    }
    assert(sum_free_grown_area(parts, k) == rg + bg);
    assert(sum_free_area(parts) == ra + ba);
    if vertical_first(f, w, h, kerf) {
        assert(free_grown_area(r, k) == (fw - wi) * (fh + k));
        assert(free_grown_area(b, k) == (wi + k) * (fh - hi));
        assert(free_area(r) == (fw - wi - k) * fh);
        assert(free_area(b) == wi * (fh - hi - k));
        assert(0 <= rg <= (fw - wi) * (fh + k)) by (nonlinear_arith)
            requires
                rg == 0 || rg == (fw - wi) * (fh + k),
                fw - wi >= 0,
                fh + k >= 0,
        ;
        assert(0 <= bg <= (wi + k) * (fh - hi)) by (nonlinear_arith)
            requires
                bg == 0 || bg == (wi + k) * (fh - hi),
                wi + k >= 0,
                fh - hi >= 0,
        ;
        assert((wi + k) * (hi + k) + (fw - wi) * (fh + k) + (wi + k) * (fh - hi) == (fw + k) * (fh + k))
            by (nonlinear_arith);
        assert(wi * hi + ra + ba <= fw * fh) by (nonlinear_arith)
            requires
                ra == 0 || (ra == (fw - wi - k) * fh && fw - wi - k >= 30),
                ba == 0 || (ba == wi * (fh - hi - k) && fh - hi - k >= 30),
                0 < wi <= fw,
                0 < hi <= fh,
                k >= 0,
        ;
    } else {
        assert(free_grown_area(r, k) == (fw - wi) * (hi + k));
        assert(free_grown_area(b, k) == (fw + k) * (fh - hi));
        assert(free_area(r) == (fw - wi - k) * hi);
        assert(free_area(b) == fw * (fh - hi - k));
        assert(0 <= rg <= (fw - wi) * (hi + k)) by (nonlinear_arith)
            requires
                rg == 0 || rg == (fw - wi) * (hi + k),
                fw - wi >= 0,
                hi + k >= 0,
        ;
        assert(0 <= bg <= (fw + k) * (fh - hi)) by (nonlinear_arith)
            requires
                bg == 0 || bg == (fw + k) * (fh - hi),
                fw + k >= 0,
                fh - hi >= 0,
        ;
        assert((wi + k) * (hi + k) + (fw - wi) * (hi + k) + (fw + k) * (fh - hi) == (fw + k) * (fh + k))
            by (nonlinear_arith);
        assert(wi * hi + ra + ba <= fw * fh) by (nonlinear_arith)
            requires
                ra == 0 || (ra == (fw - wi - k) * hi && fw - wi - k >= 30),
                ba == 0 || (ba == fw * (fh - hi - k) && fh - hi - k >= 30),
                0 < wi <= fw,
                0 < hi <= fh,
                k >= 0,
        ;
    }
}

} // verus!
