//! The layout of one plank: the cuts placed on it and its free rectangles,
//! with the invariant that keeps them apart, on the plank, and within its
//! area.

use vstd::prelude::*;
use crate::cutting::Leftover;
use crate::geometry::{FreeRect, Zone, free_grown_area, free_on_plank, free_zone, grown, lemma_split_parts, lemma_sum_free_concat, lemma_sum_free_remove, on_plank, split_bounded, split_parts, sum_free_area, sum_free_grown_area, zone_inside, zones_apart};

verus! {

/// A piece on a plank, as the search tracks it.
#[derive(Clone, Copy)]
pub struct Placement {
    pub original_index: usize,
    pub x: i64,
    pub y: i64,
    pub width: i64,
    pub height: i64,
    pub rotated: bool,
}

pub open spec fn cut_zone(c: Placement, kerf: int) -> Zone {
    grown(c.x as int, c.y as int, c.width as int, c.height as int, kerf)
}

pub open spec fn cut_area(c: Placement) -> int {
    c.width * c.height
}

pub open spec fn cut_grown_area(c: Placement, kerf: int) -> int {
    (c.width + kerf) * (c.height + kerf)
}

/// The area charged for a cut: the piece and one kerf along its width and
/// its height.
pub open spec fn cut_charge(width: int, height: int, kerf: int) -> int {
    width * height + (width + height) * kerf
}

pub open spec fn sum_cut_area(s: Seq<Placement>) -> int
    decreases s.len(),
{
    if s.len() == 0 {
        0
    } else {
        sum_cut_area(s.drop_last()) + cut_area(s.last())
    }
}

pub open spec fn sum_cut_grown_area(s: Seq<Placement>, kerf: int) -> int
    decreases s.len(),
{
    if s.len() == 0 {
        0
    } else {
        sum_cut_grown_area(s.drop_last(), kerf) + cut_grown_area(s.last(), kerf)
    }
}

pub open spec fn sum_cut_charge(s: Seq<Placement>, kerf: int) -> int
    decreases s.len(),
{
    if s.len() == 0 {
        0
    } else {
        sum_cut_charge(s.drop_last(), kerf) + cut_charge(s.last().width as int, s.last().height as int, kerf)
    }
}

/// The layout of one plank: cuts and free rectangles, each grown by the
/// kerf, are pairwise apart; each lies on the plank; and the areas fit.
pub open spec fn layout_ok(cs: Seq<Placement>, fs: Seq<FreeRect>, pw: int, ph: int, kerf: int) -> bool {
    &&& forall|i: int, j: int| 0 <= i < cs.len() && 0 <= j < cs.len() && i != j
        ==> zones_apart(cut_zone(#[trigger] cs[i], kerf), cut_zone(#[trigger] cs[j], kerf))
    &&& forall|i: int, j: int| 0 <= i < fs.len() && 0 <= j < fs.len() && i != j
        ==> zones_apart(free_zone(#[trigger] fs[i], kerf), free_zone(#[trigger] fs[j], kerf))
    &&& forall|i: int, j: int| 0 <= i < cs.len() && 0 <= j < fs.len()
        ==> zones_apart(cut_zone(#[trigger] cs[i], kerf), free_zone(#[trigger] fs[j], kerf))
    &&& forall|i: int| 0 <= i < cs.len() ==> on_plank(#[trigger] cs[i].x as int, cs[i].y as int, cs[i].width as int, cs[i].height as int, pw, ph)
    &&& forall|j: int| 0 <= j < fs.len() ==> free_on_plank(#[trigger] fs[j], pw, ph)
    &&& sum_cut_grown_area(cs, kerf) + sum_free_grown_area(fs, kerf) <= (pw + kerf) * (ph + kerf)
    &&& sum_cut_area(cs) + sum_free_area(fs) <= pw * ph
}

proof fn lemma_zone_inside_apart(a: Zone, b: Zone, c: Zone)
    requires
        zone_inside(a, b),
        zones_apart(b, c),
    ensures
        zones_apart(a, c),
        zones_apart(c, a),
{
}

/// Placing a cut at the origin of a free rectangle and splitting the rest
/// keeps a plank's layout sound.
pub(crate) proof fn lemma_place_keeps_layout(
    cs: Seq<Placement>,
    fs: Seq<FreeRect>,
    pw: int,
    ph: int,
    kerf: i64,
    r: int,
    c: Placement,
)
    requires
        layout_ok(cs, fs, pw, ph, kerf as int),
        0 <= r < fs.len(),
        c.x == fs[r].x,
        c.y == fs[r].y,
        split_bounded(fs[r], c.width, c.height, kerf),
    ensures
        layout_ok(cs.push(c), fs.remove(r) + split_parts(fs[r], c.width, c.height, kerf), pw, ph, kerf as int),
{
    let k = kerf as int;
    let f = fs[r];
    let parts = split_parts(f, c.width, c.height, kerf);
    let rest = fs.remove(r);
    let nfs = rest + parts;
    let ncs = cs.push(c);
    lemma_split_parts(f, c.width, c.height, kerf, pw, ph);
    let fz = free_zone(f, k);
    let cz = cut_zone(c, k);
    assert forall|i: int| 0 <= i < rest.len() implies zones_apart(free_zone(#[trigger] rest[i], k), fz) by {
        let oi = if i < r { i } else { i + 1 };
        assert(rest[i] == fs[oi]);
    }
    assert forall|i: int, j: int| 0 <= i < ncs.len() && 0 <= j < ncs.len() && i != j
        implies zones_apart(cut_zone(#[trigger] ncs[i], k), cut_zone(#[trigger] ncs[j], k)) by {
        if i < cs.len() && j < cs.len() {
        } else if i < cs.len() {
            assert(zones_apart(cut_zone(cs[i], k), free_zone(fs[r], k)));
            lemma_zone_inside_apart(cz, fz, cut_zone(cs[i], k));
        } else {
            assert(zones_apart(cut_zone(cs[j], k), free_zone(fs[r], k)));
            lemma_zone_inside_apart(cz, fz, cut_zone(cs[j], k));
        }
    }
    assert forall|i: int, j: int| 0 <= i < nfs.len() && 0 <= j < nfs.len() && i != j
        implies zones_apart(free_zone(#[trigger] nfs[i], k), free_zone(#[trigger] nfs[j], k)) by {
        let n = rest.len() as int;
        if i < n && j < n {
            let oi = if i < r { i } else { i + 1 };
            let oj = if j < r { j } else { j + 1 };
            assert(rest[i] == fs[oi]);
            assert(rest[j] == fs[oj]);
        } else if i < n {
            assert(nfs[j] == parts[j - n]);
            lemma_zone_inside_apart(free_zone(parts[j - n], k), fz, free_zone(rest[i], k));
        } else if j < n {
            assert(nfs[i] == parts[i - n]);
            lemma_zone_inside_apart(free_zone(parts[i - n], k), fz, free_zone(rest[j], k));
        } else {
            assert(nfs[i] == parts[i - n]);
            assert(nfs[j] == parts[j - n]);
        }
    }
    assert forall|i: int, j: int| 0 <= i < ncs.len() && 0 <= j < nfs.len()
        implies zones_apart(cut_zone(#[trigger] ncs[i], k), free_zone(#[trigger] nfs[j], k)) by {
        let n = rest.len() as int;
        if j < n {
            let oj = if j < r { j } else { j + 1 };
            assert(rest[j] == fs[oj]);
            if i < cs.len() {
            } else {
                lemma_zone_inside_apart(cz, fz, free_zone(fs[oj], k));
            }
        } else {
            assert(nfs[j] == parts[j - n]);
            if i < cs.len() {
                assert(zones_apart(cut_zone(cs[i], k), free_zone(fs[r], k)));
                lemma_zone_inside_apart(free_zone(parts[j - n], k), fz, cut_zone(cs[i], k));
            } else {
            }
        }
    }
    assert forall|j: int| 0 <= j < nfs.len() implies free_on_plank(#[trigger] nfs[j], pw, ph) by {
        let n = rest.len() as int;
        if j < n {
            let oj = if j < r { j } else { j + 1 };
            assert(rest[j] == fs[oj]);
        } else {
            assert(nfs[j] == parts[j - n]);
        }
    }
    assert forall|i: int| 0 <= i < ncs.len() implies on_plank(#[trigger] ncs[i].x as int, ncs[i].y as int, ncs[i].width as int, ncs[i].height as int, pw, ph) by {
        if i == cs.len() {
            assert(free_on_plank(fs[r], pw, ph));
        }
    }
    lemma_sum_free_remove(fs, r, k);
    lemma_sum_free_concat(rest, parts, k);
    assert(ncs.drop_last() =~= cs);
}

pub open spec fn plank_layout_ok(cs: Seq<Placement>, fs: Seq<FreeRect>, p: Leftover, kerf: int) -> bool {
    layout_ok(cs, fs, p.width_mm as int, p.height_mm as int, kerf)
}

pub(crate) proof fn lemma_charge_bounded(cs: Seq<Placement>, kerf: int)
    requires
        kerf >= 0,
        forall|i: int| 0 <= i < cs.len() ==> #[trigger] cs[i].width >= 0 && cs[i].height >= 0,
    ensures
        0 <= sum_cut_charge(cs, kerf) <= sum_cut_grown_area(cs, kerf),
        0 <= sum_cut_area(cs),
    decreases cs.len(),
{
    if cs.len() > 0 {
        let l = cs.last();
        lemma_charge_bounded(cs.drop_last(), kerf);
        assert(0 <= cut_charge(l.width as int, l.height as int, kerf) <= cut_grown_area(l, kerf)) by (nonlinear_arith)
            requires
                l.width >= 0,
                l.height >= 0,
                kerf >= 0,
        ;
        assert(0 <= cut_area(l)) by (nonlinear_arith)
            requires
                l.width >= 0,
                l.height >= 0,
        ;
    }
}

proof fn lemma_free_sums_nonneg(fs: Seq<FreeRect>, kerf: int)
    requires
        kerf >= 0,
        forall|i: int| 0 <= i < fs.len() ==> #[trigger] fs[i].width >= 0 && fs[i].height >= 0,
    ensures
        0 <= sum_free_grown_area(fs, kerf),
        0 <= sum_free_area(fs),
    decreases fs.len(),
{
    if fs.len() > 0 {
        let l = fs.last();
        lemma_free_sums_nonneg(fs.drop_last(), kerf);
        assert(0 <= free_grown_area(l, kerf)) by (nonlinear_arith)
            requires
                l.width >= 0,
                l.height >= 0,
                kerf >= 0,
        ;
        assert(0 <= l.width * l.height) by (nonlinear_arith)
            requires
                l.width >= 0,
                l.height >= 0,
        ;
    }
}

/// The area charged on a plank is at most the plank grown by one kerf.
pub(crate) proof fn lemma_layout_charge_bounded(cs: Seq<Placement>, fs: Seq<FreeRect>, p: Leftover, kerf: int)
    requires
        plank_layout_ok(cs, fs, p, kerf),
        kerf >= 0,
    ensures
        0 <= sum_cut_charge(cs, kerf) <= (p.width_mm + kerf) * (p.height_mm + kerf),
{
    assert forall|i: int| 0 <= i < cs.len() implies #[trigger] cs[i].width >= 0 && cs[i].height >= 0 by {
        assert(on_plank(cs[i].x as int, cs[i].y as int, cs[i].width as int, cs[i].height as int, p.width_mm as int, p.height_mm as int));
    }
    assert forall|i: int| 0 <= i < fs.len() implies #[trigger] fs[i].width >= 0 && fs[i].height >= 0 by {
        assert(free_on_plank(fs[i], p.width_mm as int, p.height_mm as int));
    }
    lemma_charge_bounded(cs, kerf);
    lemma_free_sums_nonneg(fs, kerf);
}

pub(crate) fn copy_placements(v: &Vec<Placement>) -> (r: Vec<Placement>)
    ensures
        r@ == v@,
{
    let mut r: Vec<Placement> = Vec::new();
    let mut i: usize = 0;
    while i < v.len()
        invariant
            i <= v.len(),
            r@ == v@.subrange(0, i as int),
        decreases v.len() - i,
    {
        r.push(v[i]);
        i += 1;
        assert(r@ =~= v@.subrange(0, i as int));
    }
    assert(r@ =~= v@);
    r
}

pub(crate) fn copy_rects(v: &Vec<FreeRect>) -> (r: Vec<FreeRect>)
    ensures
        r@ == v@,
{
    let mut r: Vec<FreeRect> = Vec::new();
    let mut i: usize = 0;
    while i < v.len()
        invariant
            i <= v.len(),
            r@ == v@.subrange(0, i as int),
        decreases v.len() - i,
    {
        r.push(v[i]);
        i += 1;
        assert(r@ =~= v@.subrange(0, i as int));
    }
    assert(r@ =~= v@);
    r
}

pub(crate) proof fn lemma_free_sums_nonneg_on_plank(fs: Seq<FreeRect>, p: Leftover, kerf: int)
    requires
        forall|j: int| 0 <= j < fs.len() ==> free_on_plank(#[trigger] fs[j], p.width_mm as int, p.height_mm as int),
        kerf >= 0,
    ensures
        0 <= sum_free_grown_area(fs, kerf),
        0 <= sum_free_area(fs),
{
    assert forall|i: int| 0 <= i < fs.len() implies #[trigger] fs[i].width >= 0 && fs[i].height >= 0 by {
        assert(free_on_plank(fs[i], p.width_mm as int, p.height_mm as int));
    }
    lemma_free_sums_nonneg(fs, kerf);
}

pub(crate) proof fn lemma_free_area_le_grown(fs: Seq<FreeRect>, kerf: int)
    requires
        kerf >= 0,
        forall|i: int| 0 <= i < fs.len() ==> #[trigger] fs[i].width >= 0 && fs[i].height >= 0,
    ensures
        sum_free_area(fs) <= sum_free_grown_area(fs, kerf),
    decreases fs.len(),
{
    if fs.len() > 0 {
        let l = fs.last();
        lemma_free_area_le_grown(fs.drop_last(), kerf);
        assert(l.width * l.height <= (l.width + kerf) * (l.height + kerf)) by (nonlinear_arith)
            requires
                l.width >= 0,
                l.height >= 0,
                kerf >= 0,
        ;
    }
}

} // verus!
