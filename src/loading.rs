//! Loading a van: axis-aligned placement of cargo items into free cuboids,
//! heavy and sturdy items first, keeping clear of the wheel wells.

use vstd::prelude::*;
use vstd::multiset::Multiset;
use crate::validation::{AppError, MAX_DIMENSION};

verus! {

pub const MIN_ITEM_DIMENSION: i64 = 10;

pub const MAX_ITEM_DIMENSION: i64 = 5000;

/// The heaviest item accepted, in grams.
pub const MAX_ITEM_WEIGHT_G: i64 = 500_000;

/// The most items one request may hold.
pub const MAX_ITEMS: usize = 1_000_000;

/// Height of one rendering level, in millimetres.
pub const LEVEL_HEIGHT: i64 = 500;

/// A van's cargo cavity; x runs along its length, z across its width, y up.
pub struct Van {
    pub id: i64,
    pub name: String,
    pub length_mm: i64,
    pub width_mm: i64,
    pub height_mm: i64,
    pub max_weight_kg: Option<i64>,
    pub wheel_well_height_mm: Option<i64>,
    pub wheel_well_width_mm: Option<i64>,
    pub wheel_well_start_x_mm: Option<i64>,
    pub active: bool,
    pub notes: Option<String>,
    pub created_at: String,
}

/// An item to load; its weight is in grams.
pub struct CargoItem {
    pub description: String,
    pub length_mm: i64,
    pub width_mm: i64,
    pub height_mm: i64,
    pub weight_g: i64,
    pub fragile: bool,
    pub rotation_allowed: bool,
    pub stackable: bool,
    pub color: Option<String>,
}

/// The weight of an item that states none: one kilogram.
pub fn default_weight() -> (r: i64)
    ensures
        r == 1000,
{
    1000
}

#[derive(Clone, Copy, PartialEq, Eq, Structural)]
pub struct Position3D {
    pub x: i64,
    pub y: i64,
    pub z: i64,
}

/// Rotation about each axis, in degrees.
#[derive(Clone, Copy, PartialEq, Eq, Structural)]
pub struct Rotation3D {
    pub x: i64,
    pub y: i64,
    pub z: i64,
}

pub struct PositionedItem {
    pub item: CargoItem,
    pub position: Position3D,
    pub rotation: Rotation3D,
    pub level: i32,
    pub placed_length: i64,
    pub placed_width: i64,
    pub placed_height: i64,
}

/// The plan; utilization is `used_volume / van_volume`, at most one.
pub struct LoadingPlan {
    pub items: Vec<PositionedItem>,
    pub total_weight_g: i64,
    pub van_volume: i64,
    pub used_volume: i64,
}

pub struct OptimizeResponse {
    pub success: bool,
    pub plan: Option<LoadingPlan>,
    pub unplaced_items: Vec<CargoItem>,
    pub warnings: Vec<String>,
}

/// An axis-aligned box: origin and extents along x (length), z (width) and
/// y (height).
#[derive(Clone, Copy, PartialEq, Eq, Structural)]
pub struct Cuboid {
    pub x: i64,
    pub y: i64,
    pub z: i64,
    pub l: i64,
    pub w: i64,
    pub h: i64,
}

pub open spec fn cuboids_apart(a: Cuboid, b: Cuboid) -> bool {
    a.x + a.l <= b.x || b.x + b.l <= a.x || a.z + a.w <= b.z || b.z + b.w <= a.z || a.y + a.h <= b.y || b.y + b.h <= a.y
}

/// The box lies in the cavity and has a positive extent on each axis.
pub open spec fn in_van(c: Cuboid, van: Van) -> bool {
    &&& 0 <= c.x && 0 < c.l && c.x + c.l <= van.length_mm
    &&& 0 <= c.z && 0 < c.w && c.z + c.w <= van.width_mm
    &&& 0 <= c.y && 0 < c.h && c.y + c.h <= van.height_mm
}

/// The wheel wells: both height and width set and positive.
pub open spec fn has_wheel_wells(van: Van) -> bool {
    &&& van.wheel_well_height_mm matches Some(h) && h > 0
    &&& van.wheel_well_width_mm matches Some(w) && w > 0
}

pub open spec fn well_start(van: Van) -> i64 {
    match van.wheel_well_start_x_mm {
        Some(s) => s,
        None => 0,
    }
}

/// A box collides with the wheel wells when it reaches past their start,
/// starts below their top, and reaches into the corridor along either
/// side wall.
pub open spec fn hits_wheel_well(c: Cuboid, van: Van) -> bool {
    has_wheel_wells(van) && {
        let wh = van.wheel_well_height_mm->Some_0;
        let ww = van.wheel_well_width_mm->Some_0;
        &&& c.x + c.l > well_start(van)
        &&& c.y < wh
        &&& (c.z < ww || c.z + c.w > van.width_mm - ww)
    }
}

/// Dimensions for which the arithmetic on boxes stays within `i64`.
pub open spec fn van_ok(van: Van) -> bool {
    &&& 1 <= van.length_mm <= MAX_DIMENSION
    &&& 1 <= van.width_mm <= MAX_DIMENSION
    &&& 1 <= van.height_mm <= MAX_DIMENSION
    &&& van.wheel_well_height_mm matches Some(h) ==> -MAX_DIMENSION <= h <= MAX_DIMENSION
    &&& van.wheel_well_width_mm matches Some(w) ==> -MAX_DIMENSION <= w <= MAX_DIMENSION
    &&& van.wheel_well_start_x_mm matches Some(s) ==> -MAX_DIMENSION <= s <= MAX_DIMENSION
}

pub fn collides_with_wheel_well(c: Cuboid, van: &Van) -> (r: bool)
    requires
        van_ok(*van),
        -MAX_DIMENSION <= c.x <= MAX_DIMENSION,
        -MAX_DIMENSION <= c.y <= MAX_DIMENSION,
        -MAX_DIMENSION <= c.z <= MAX_DIMENSION,
        -MAX_DIMENSION <= c.l <= MAX_DIMENSION,
        -MAX_DIMENSION <= c.w <= MAX_DIMENSION,
        -MAX_DIMENSION <= c.h <= MAX_DIMENSION,
    ensures
        r == hits_wheel_well(c, *van),
{
    let wh = match van.wheel_well_height_mm {
        Some(h) => h,
        None => 0,
    };
    let ww = match van.wheel_well_width_mm {
        Some(w) => w,
        None => 0,
    };
    if wh <= 0 || ww <= 0 {
        return false;
    }
    let start = match van.wheel_well_start_x_mm {
        Some(s) => s,
        None => 0,
    };
    c.x + c.l > start && c.y < wh && (c.z < ww || c.z + c.w > van.width_mm - ww)
}

pub open spec fn box_of(p: PositionedItem) -> Cuboid {
    Cuboid { x: p.position.x, y: p.position.y, z: p.position.z, l: p.placed_length, w: p.placed_width, h: p.placed_height }
}

/// The packing so far: free cuboids and placed boxes lie in the van and are
/// pairwise apart; every free cuboid reaches the roof; no box touches a
/// wheel well.
pub open spec fn packing_ok(spaces: Seq<Cuboid>, boxes: Seq<Cuboid>, van: Van) -> bool {
    &&& forall|i: int| 0 <= i < spaces.len() ==> in_van(#[trigger] spaces[i], van)
    &&& forall|i: int| 0 <= i < spaces.len() ==> (#[trigger] spaces[i]).y + spaces[i].h == van.height_mm
    &&& forall|i: int| 0 <= i < boxes.len() ==> in_van(#[trigger] boxes[i], van)
    &&& forall|i: int| 0 <= i < boxes.len() ==> !hits_wheel_well(#[trigger] boxes[i], van)
    &&& forall|i: int, j: int| 0 <= i < spaces.len() && 0 <= j < spaces.len() && i != j
        ==> cuboids_apart(#[trigger] spaces[i], #[trigger] spaces[j])
    &&& forall|i: int, j: int| 0 <= i < boxes.len() && 0 <= j < boxes.len() && i != j
        ==> cuboids_apart(#[trigger] boxes[i], #[trigger] boxes[j])
    &&& forall|i: int, j: int| 0 <= i < spaces.len() && 0 <= j < boxes.len()
        ==> cuboids_apart(#[trigger] spaces[i], #[trigger] boxes[j])
}

/// The footprints of two boxes, seen from above, overlap.
pub open spec fn footprints_overlap(a: Cuboid, b: Cuboid) -> bool {
    a.x < b.x + b.l && b.x < a.x + a.l && a.z < b.z + b.w && b.z < a.z + a.w
}

/// A box placed earlier is never above a later one that shares its
/// footprint: later boxes only go on top.
pub open spec fn stacked_in_order(boxes: Seq<Cuboid>) -> bool {
    forall|i: int, j: int| 0 <= i < j < boxes.len() && footprints_overlap(#[trigger] boxes[i], #[trigger] boxes[j])
        ==> boxes[i].y + boxes[i].h <= boxes[j].y
}

/// The residual cuboids of `s` after a box of `l × w × h` at its origin:
/// beyond it along x, beside it along z, above it along y.
pub open spec fn split_x(s: Cuboid, l: i64) -> Cuboid {
    Cuboid { x: (s.x + l) as i64, l: (s.l - l) as i64, ..s }
}

pub open spec fn split_z(s: Cuboid, l: i64, w: i64) -> Cuboid {
    Cuboid { z: (s.z + w) as i64, l, w: (s.w - w) as i64, ..s }
}

pub open spec fn split_y(s: Cuboid, l: i64, w: i64, h: i64) -> Cuboid {
    Cuboid { y: (s.y + h) as i64, l, w, h: (s.h - h) as i64, ..s }
}

pub open spec fn positive(c: Cuboid) -> bool {
    c.l > 0 && c.w > 0 && c.h > 0
}

pub open spec fn fits_space(s: Cuboid, l: i64, w: i64, h: i64) -> bool {
    0 < l <= s.l && 0 < w <= s.w && 0 < h <= s.h
}

pub open spec fn placed_at(s: Cuboid, l: i64, w: i64, h: i64) -> Cuboid {
    Cuboid { l, w, h, ..s }
}

proof fn lemma_inside_apart(a: Cuboid, s: Cuboid, c: Cuboid)
    requires
        s.x <= a.x && a.x + a.l <= s.x + s.l,
        s.z <= a.z && a.z + a.w <= s.z + s.w,
        s.y <= a.y && a.y + a.h <= s.y + s.h,
        cuboids_apart(s, c),
    ensures
        cuboids_apart(a, c),
        cuboids_apart(c, a),
{
}

pub open spec fn inside(a: Cuboid, s: Cuboid) -> bool {
    &&& s.x <= a.x && a.x + a.l <= s.x + s.l
    &&& s.z <= a.z && a.z + a.w <= s.z + s.w
    &&& s.y <= a.y && a.y + a.h <= s.y + s.h
}

/// The residuals of a split lie in the split cuboid, reach its top, and are
/// apart from the placed box and from each other.
proof fn lemma_split_pieces(s: Cuboid, l: i64, w: i64, h: i64)
    requires
        fits_space(s, l, w, h),
        -2 * MAX_DIMENSION <= s.x <= 2 * MAX_DIMENSION,
        -2 * MAX_DIMENSION <= s.y <= 2 * MAX_DIMENSION,
        -2 * MAX_DIMENSION <= s.z <= 2 * MAX_DIMENSION,
        s.l <= 2 * MAX_DIMENSION && s.w <= 2 * MAX_DIMENSION && s.h <= 2 * MAX_DIMENSION,
    ensures
        ({
            let b = placed_at(s, l, w, h);
            let px = split_x(s, l);
            let pz = split_z(s, l, w);
            let py = split_y(s, l, w, h);
            &&& inside(b, s)
            &&& inside(px, s) && inside(pz, s) && inside(py, s)
            &&& px.y + px.h == s.y + s.h && pz.y + pz.h == s.y + s.h && py.y + py.h == s.y + s.h
            &&& cuboids_apart(px, b) && cuboids_apart(pz, b) && cuboids_apart(py, b)
            &&& cuboids_apart(px, pz) && cuboids_apart(px, py) && cuboids_apart(pz, py)
        }),
{
}

/// Removing the split cuboid and adding the box keeps the packing sound and
/// the stacking order.
proof fn lemma_take_space(spaces: Seq<Cuboid>, boxes: Seq<Cuboid>, van: Van, k: int, b: Cuboid)
    requires
        packing_ok(spaces, boxes, van),
        stacked_in_order(boxes),
        0 <= k < spaces.len(),
        inside(b, spaces[k]),
        0 < b.l && 0 < b.w && 0 < b.h,
        !hits_wheel_well(b, van),
    ensures
        packing_ok(spaces.remove(k), boxes.push(b), van),
        stacked_in_order(boxes.push(b)),
        forall|t: int| 0 <= t < spaces.remove(k).len() ==> cuboids_apart(#[trigger] spaces.remove(k)[t], spaces[k]),
{
    let s = spaces[k];
    let nb = boxes.push(b);
    let rest = spaces.remove(k);
    assert forall|t: int| 0 <= t < rest.len() implies cuboids_apart(#[trigger] rest[t], s) by {
        let o = if t < k { t } else { t + 1 };
        assert(rest[t] == spaces[o]);
    }
    assert forall|i: int, j: int| 0 <= i < rest.len() && 0 <= j < rest.len() && i != j
        implies cuboids_apart(#[trigger] rest[i], #[trigger] rest[j]) by {
        let oi = if i < k { i } else { i + 1 };
        let oj = if j < k { j } else { j + 1 };
        assert(rest[i] == spaces[oi] && rest[j] == spaces[oj]);
    }
    assert forall|i: int| 0 <= i < rest.len() implies in_van(#[trigger] rest[i], van) && rest[i].y + rest[i].h == van.height_mm by {
        let oi = if i < k { i } else { i + 1 };
        assert(rest[i] == spaces[oi]);
    }
    assert forall|i: int, j: int| 0 <= i < rest.len() && 0 <= j < nb.len()
        implies cuboids_apart(#[trigger] rest[i], #[trigger] nb[j]) by {
        let oi = if i < k { i } else { i + 1 };
        assert(rest[i] == spaces[oi]);
        if j < boxes.len() {
            assert(nb[j] == boxes[j]);
        } else {
            lemma_inside_apart(b, s, rest[i]);
        }
    }
    assert forall|i: int, j: int| 0 <= i < nb.len() && 0 <= j < nb.len() && i != j
        implies cuboids_apart(#[trigger] nb[i], #[trigger] nb[j]) by {
        if i < boxes.len() && j < boxes.len() {
        } else if i < boxes.len() {
            assert(cuboids_apart(s, boxes[i]));
            lemma_inside_apart(b, s, boxes[i]);
        } else {
            assert(cuboids_apart(s, boxes[j]));
            lemma_inside_apart(b, s, boxes[j]);
        }
    }
    assert forall|i: int| 0 <= i < nb.len() implies in_van(#[trigger] nb[i], van) && !hits_wheel_well(nb[i], van) by {
        if i < boxes.len() {
            assert(nb[i] == boxes[i]);
        }
    }
    assert forall|i: int, j: int| 0 <= i < j < nb.len() && footprints_overlap(#[trigger] nb[i], #[trigger] nb[j])
        implies nb[i].y + nb[i].h <= nb[j].y by {
        if j < boxes.len() {
            assert(nb[i] == boxes[i] && nb[j] == boxes[j]);
        } else {
            assert(nb[i] == boxes[i]);
            assert(cuboids_apart(s, boxes[i]));
            assert(in_van(boxes[i], van));
        }
    }
}

/// Inserting a free cuboid that is apart from everything keeps the packing
/// sound.
proof fn lemma_insert_space(spaces: Seq<Cuboid>, boxes: Seq<Cuboid>, van: Van, pos: int, p: Cuboid)
    requires
        packing_ok(spaces, boxes, van),
        0 <= pos <= spaces.len(),
        in_van(p, van),
        p.y + p.h == van.height_mm,
        forall|t: int| 0 <= t < spaces.len() ==> cuboids_apart(#[trigger] spaces[t], p),
        forall|t: int| 0 <= t < boxes.len() ==> cuboids_apart(p, #[trigger] boxes[t]),
    ensures
        packing_ok(spaces.insert(pos, p), boxes, van),
{
    let n = spaces.insert(pos, p);
    assert forall|i: int| 0 <= i < n.len() implies in_van(#[trigger] n[i], van) && n[i].y + n[i].h == van.height_mm by {
        if i < pos {
            assert(n[i] == spaces[i]);
        } else if i > pos {
            assert(n[i] == spaces[i - 1]);
        }
    }
    assert forall|i: int, j: int| 0 <= i < n.len() && 0 <= j < n.len() && i != j
        implies cuboids_apart(#[trigger] n[i], #[trigger] n[j]) by {
        let oi = if i < pos { i } else { i - 1 };
        let oj = if j < pos { j } else { j - 1 };
        if i != pos && j != pos {
            assert(n[i] == spaces[oi] && n[j] == spaces[oj]);
        } else if i == pos {
            assert(n[j] == spaces[oj]);
        } else {
            assert(n[i] == spaces[oi]);
        }
    }
    assert forall|i: int, j: int| 0 <= i < n.len() && 0 <= j < boxes.len()
        implies cuboids_apart(#[trigger] n[i], #[trigger] boxes[j]) by {
        if i < pos {
            assert(n[i] == spaces[i]);
        } else if i > pos {
            assert(n[i] == spaces[i - 1]);
        }
    }
}

impl CargoItem {
    pub fn copy(&self) -> (r: CargoItem)
        ensures
            r == *self,
    {
        CargoItem {
            description: self.description.clone(),
            length_mm: self.length_mm,
            width_mm: self.width_mm,
            height_mm: self.height_mm,
            weight_g: self.weight_g,
            fragile: self.fragile,
            rotation_allowed: self.rotation_allowed,
            stackable: self.stackable,
            color: match &self.color {
                Some(c) => Some(c.clone()),
                None => None,
            },
        }
    }
}

pub open spec fn item_ok(it: CargoItem) -> bool {
    &&& MIN_ITEM_DIMENSION <= it.length_mm <= MAX_ITEM_DIMENSION
    &&& MIN_ITEM_DIMENSION <= it.width_mm <= MAX_ITEM_DIMENSION
    &&& MIN_ITEM_DIMENSION <= it.height_mm <= MAX_ITEM_DIMENSION
    &&& 0 < it.weight_g <= MAX_ITEM_WEIGHT_G
    &&& it.description@.len() > 0
}

pub open spec fn items_ok(items: Seq<CargoItem>) -> bool {
    forall|i: int| 0 <= i < items.len() ==> item_ok(#[trigger] items[i])
}

pub const MAX_ITEM_VOLUME: i64 = 125_000_000_000;

pub const FRAGILE_RANK: i64 = 100_000_000_000_000_000;

/// Loading order: sturdy items before fragile ones, then heavier first,
/// then larger first; a smaller rank loads earlier.
pub open spec fn load_rank(it: CargoItem) -> int {
    (if it.fragile { FRAGILE_RANK as int } else { 0int })
        + (MAX_ITEM_WEIGHT_G - it.weight_g) * (MAX_ITEM_VOLUME + 1)
        + (MAX_ITEM_VOLUME - it.length_mm * it.width_mm * it.height_mm)
}

proof fn lemma_rank_parts(it: CargoItem)
    requires
        item_ok(it),
    ensures
        0 <= load_rank(it) - (if it.fragile { FRAGILE_RANK as int } else { 0int }) < FRAGILE_RANK,
{
    let v = it.length_mm * it.width_mm * it.height_mm;
    assert(1000 <= v <= MAX_ITEM_VOLUME) by (nonlinear_arith)
        requires
            10 <= it.length_mm <= 5000,
            10 <= it.width_mm <= 5000,
            10 <= it.height_mm <= 5000,
            v == it.length_mm * it.width_mm * it.height_mm,
    ;
    assert(0 <= (MAX_ITEM_WEIGHT_G - it.weight_g) * (MAX_ITEM_VOLUME + 1) <= 499_999 * (MAX_ITEM_VOLUME + 1)) by (nonlinear_arith)
        requires
            0 <= MAX_ITEM_WEIGHT_G - it.weight_g <= 499_999,
    ;
}

/// An item loaded before a later one is fragile only if the later one is.
pub proof fn lemma_rank_keeps_fragile_last(a: CargoItem, b: CargoItem)
    requires
        item_ok(a),
        item_ok(b),
        load_rank(a) <= load_rank(b),
        a.fragile,
    ensures
        b.fragile,
{
    lemma_rank_parts(a);
    lemma_rank_parts(b);
}

fn item_rank(it: &CargoItem) -> (r: i64)
    requires
        item_ok(*it),
    ensures
        r == load_rank(*it),
{
    proof {
        lemma_rank_parts(*it);
        assert(0 < it.length_mm * it.width_mm <= 5000 * 5000) by (nonlinear_arith)
            requires
                10 <= it.length_mm <= 5000,
                10 <= it.width_mm <= 5000,
        ;
        assert(0 < it.length_mm * it.width_mm * it.height_mm <= 5000 * 5000 * 5000) by (nonlinear_arith)
            requires
                0 < it.length_mm * it.width_mm <= 5000 * 5000,
                10 <= it.height_mm <= 5000,
        ;
        assert(0 <= (MAX_ITEM_WEIGHT_G - it.weight_g) * (MAX_ITEM_VOLUME + 1) <= 500_000 * (MAX_ITEM_VOLUME + 1)) by (nonlinear_arith)
            requires
                0 <= MAX_ITEM_WEIGHT_G - it.weight_g <= 500_000,
        ;
    }
    (if it.fragile { FRAGILE_RANK } else { 0 }) + (MAX_ITEM_WEIGHT_G - it.weight_g) * (MAX_ITEM_VOLUME + 1)
        + (MAX_ITEM_VOLUME - it.length_mm * it.width_mm * it.height_mm)
}

/// The item indices in loading order, by rank, list order among equals.
fn order_items(items: &Vec<CargoItem>) -> (order: Vec<usize>)
    requires
        items_ok(items@),
    ensures
        order@.len() == items@.len(),
        forall|t: int| 0 <= t < order@.len() ==> (#[trigger] order@[t]) < items@.len(),
        forall|a: int, b: int| 0 <= a <= b < order@.len()
            ==> load_rank(items@[(#[trigger] order@[a]) as int]) <= load_rank(items@[(#[trigger] order@[b]) as int]),
        order@.map_values(|k: usize| items@[k as int]).to_multiset() == items@.to_multiset(),
{
    let mut order: Vec<usize> = Vec::new();
    let mut ranks: Vec<i64> = Vec::new();
    proof {
        crate::search::lemma_empty_to_multiset(order@.map_values(|k: usize| items@[k as int]));
        crate::search::lemma_empty_to_multiset(items@.subrange(0, 0));
    }
    let mut i: usize = 0;
    while i < items.len()
        invariant
            i <= items@.len(),
            items_ok(items@),
            order@.len() == i,
            ranks@.len() == i,
            forall|t: int| 0 <= t < order@.len() ==> (#[trigger] order@[t]) < items@.len(),
            forall|t: int| 0 <= t < order@.len() ==> ranks@[t] == load_rank(items@[(#[trigger] order@[t]) as int]),
            forall|a: int, b: int| 0 <= a <= b < ranks@.len() ==> (#[trigger] ranks@[a]) <= (#[trigger] ranks@[b]),
            order@.map_values(|k: usize| items@[k as int]).to_multiset() == items@.subrange(0, i as int).to_multiset(),
        decreases items.len() - i,
    {
        assert(item_ok(items@[i as int]));
        let rank = item_rank(&items[i]);
        let mut pos: usize = 0;
        while pos < ranks.len() && ranks[pos] <= rank
            invariant
                pos <= ranks@.len(),
                forall|t: int| 0 <= t < pos ==> (#[trigger] ranks@[t]) <= rank,
            decreases ranks.len() - pos,
        {
            pos += 1;
        }
        let ghost old_ranks = ranks@;
        let ghost old_order = order@;
        ranks.insert(pos, rank);
        order.insert(pos, i);
        proof {
            let f = |k: usize| items@[k as int];
            assert(order@.map_values(f) =~= old_order.map_values(f).insert(pos as int, items@[i as int]));
            vstd::seq_lib::to_multiset_insert(old_order.map_values(f), pos as int, items@[i as int]);
            assert(items@.subrange(0, i + 1) =~= items@.subrange(0, i as int).push(items@[i as int]));
            vstd::seq_lib::to_multiset_build(items@.subrange(0, i as int), items@[i as int]);
        }
        assert forall|a: int, b: int| 0 <= a <= b < ranks@.len() implies (#[trigger] ranks@[a]) <= (#[trigger] ranks@[b]) by {
            if a < pos && b > pos {
                assert(ranks@[b] == old_ranks[b - 1]);
            } else if a == pos && b > pos {
                assert(ranks@[b] == old_ranks[b - 1]);
                assert(old_ranks[pos as int] <= old_ranks[b - 1]);
            } else if a > pos {
                assert(ranks@[a] == old_ranks[a - 1]);
                assert(ranks@[b] == old_ranks[b - 1]);
            }
        }
        assert forall|t: int| 0 <= t < order@.len() implies ranks@[t] == load_rank(items@[(#[trigger] order@[t]) as int]) by {
            if t < pos {
                assert(order@[t] == old_order[t]);
            } else if t > pos {
                assert(order@[t] == old_order[t - 1]);
            }
        }
        assert forall|t: int| 0 <= t < order@.len() implies (#[trigger] order@[t]) < items@.len() by {
            if t < pos {
                assert(order@[t] == old_order[t]);
            } else if t > pos {
                assert(order@[t] == old_order[t - 1]);
            }
        }
        i += 1;
    }
    assert(items@.subrange(0, i as int) =~= items@);
    order
}

/// The placed extents are the item's, or, when it may rotate, any
/// permutation of them.
pub open spec fn allowed_dims(it: CargoItem, l: i64, w: i64, h: i64) -> bool {
    let (a, b, c) = (it.length_mm, it.width_mm, it.height_mm);
    (l == a && w == b && h == c) || (it.rotation_allowed && {
        ||| (l == b && w == a && h == c)
        ||| (l == a && w == c && h == b)
        ||| (l == c && w == a && h == b)
        ||| (l == b && w == c && h == a)
        ||| (l == c && w == b && h == a)
    })
}

/// The orientations to try, each with its rotation about the vertical axis.
fn orientations(it: &CargoItem) -> (r: Vec<(i64, i64, i64, i64)>)
    ensures
        r@.len() > 0,
        forall|t: int| 0 <= t < r@.len() ==> allowed_dims(*it, (#[trigger] r@[t]).0, r@[t].1, r@[t].2)
            && (r@[t].3 == 0 || r@[t].3 == 90),
        forall|l: i64, w: i64, h: i64| #[trigger] allowed_dims(*it, l, w, h)
            ==> exists|t: int| 0 <= t < r@.len() && r@[t].0 == l && r@[t].1 == w && r@[t].2 == h,
{
    let (a, b, c) = (it.length_mm, it.width_mm, it.height_mm);
    let mut r: Vec<(i64, i64, i64, i64)> = Vec::new();
    r.push((a, b, c, 0));
    if it.rotation_allowed {
        r.push((b, a, c, 90));
        r.push((a, c, b, 0));
        r.push((c, a, b, 90));
        r.push((b, c, a, 0));
        r.push((c, b, a, 90));
    }
    proof {
        assert forall|l: i64, w: i64, h: i64| #[trigger] allowed_dims(*it, l, w, h)
            implies exists|t: int| 0 <= t < r@.len() && r@[t].0 == l && r@[t].1 == w && r@[t].2 == h by {
            if l == a && w == b && h == c {
                assert(r@[0].0 == l && r@[0].1 == w && r@[0].2 == h);
            } else if l == b && w == a && h == c {
                assert(r@[1].0 == l && r@[1].1 == w && r@[1].2 == h);
            } else if l == a && w == c && h == b {
                assert(r@[2].0 == l && r@[2].1 == w && r@[2].2 == h);
            } else if l == c && w == a && h == b {
                assert(r@[3].0 == l && r@[3].1 == w && r@[3].2 == h);
            } else if l == b && w == c && h == a {
                assert(r@[4].0 == l && r@[4].1 == w && r@[4].2 == h);
            } else {
                assert(r@[5].0 == l && r@[5].1 == w && r@[5].2 == h);
            }
        }
    }
    r
}

/// Adds a free cuboid after every one at least as large.
fn insert_space(spaces: &mut Vec<Cuboid>, p: Cuboid, Ghost(van): Ghost<Van>)
    requires
        forall|t: int| 0 <= t < old(spaces)@.len() ==> in_van(#[trigger] old(spaces)@[t], van),
        in_van(p, van),
        van_ok(van),
    ensures
        exists|pos: int| 0 <= pos <= old(spaces)@.len() && final(spaces)@ == old(spaces)@.insert(pos, p),
{
    proof {
        assert(0 < p.l * p.w <= 10000 * 10000) by (nonlinear_arith)
            requires
                0 < p.l <= 10000,
                0 < p.w <= 10000,
        ;
        assert(0 < p.l * p.w * p.h <= 10000 * 10000 * 10000) by (nonlinear_arith)
            requires
                0 < p.l * p.w <= 10000 * 10000,
                0 < p.h <= 10000,
        ;
    }
    let vol = p.l * p.w * p.h;
    let mut pos: usize = 0;
    while pos < spaces.len()
        invariant
            pos <= spaces@.len(),
            forall|t: int| 0 <= t < spaces@.len() ==> in_van(#[trigger] spaces@[t], van),
            van_ok(van),
        decreases spaces.len() - pos,
    {
        let s = spaces[pos];
        assert(in_van(spaces@[pos as int], van));
        proof {
            assert(0 < s.l * s.w <= 10000 * 10000) by (nonlinear_arith)
                requires
                    0 < s.l <= 10000,
                    0 < s.w <= 10000,
            ;
            assert(0 < s.l * s.w * s.h <= 10000 * 10000 * 10000) by (nonlinear_arith)
                requires
                    0 < s.l * s.w <= 10000 * 10000,
                    0 < s.h <= 10000,
            ;
        }
        if s.l * s.w * s.h < vol {
            break;
        }
        pos += 1;
    }
    spaces.insert(pos, p);
}

pub open spec fn boxes_of(placed: Seq<PositionedItem>) -> Seq<Cuboid> {
    placed.map_values(|p: PositionedItem| box_of(p))
}

/// What a plan for `items` in `van` guarantees: its boxes are packed soundly
/// and stacked in loading order; each placed item is one of the items, in an
/// allowed orientation; sturdy items come before fragile ones; and each item
/// is placed or reported unplaced.
pub open spec fn plan_ok(plan: LoadingPlan, unplaced: Seq<CargoItem>, items: Seq<CargoItem>, van: Van) -> bool {
    let placed = plan.items@;
    &&& packing_ok(Seq::<Cuboid>::empty(), boxes_of(placed), van)
    &&& stacked_in_order(boxes_of(placed))
    &&& forall|t: int| 0 <= t < placed.len() ==> items.contains((#[trigger] placed[t]).item)
        && allowed_dims(placed[t].item, placed[t].placed_length, placed[t].placed_width, placed[t].placed_height)
    &&& forall|a: int, b: int| 0 <= a < b < placed.len() ==> load_rank((#[trigger] placed[a]).item) <= load_rank((#[trigger] placed[b]).item)
    &&& forall|t: int| 0 <= t < unplaced.len() ==> items.contains(#[trigger] unplaced[t])
    &&& placed.len() + unplaced.len() == items.len()
    &&& plan.van_volume == van.length_mm * van.width_mm * van.height_mm
    &&& plan.used_volume == placed_volume(placed)
    &&& plan.total_weight_g == placed_weight(placed)
    &&& forall|t: int| 0 <= t < placed.len() ==> (#[trigger] placed[t]).level == placed[t].position.y / LEVEL_HEIGHT
    &&& items_of(placed).to_multiset().add(unplaced.to_multiset()) == items.to_multiset()
}

/// Free cuboid `k` of `pool` admits the item in extents `l × w × h`: an
/// allowed orientation that fits there, clear of the wheel wells.
pub open spec fn admits(pool: Seq<Cuboid>, k: int, it: CargoItem, l: i64, w: i64, h: i64, van: Van) -> bool {
    &&& 0 <= k < pool.len()
    &&& allowed_dims(it, l, w, h)
    &&& fits_space(pool[k], l, w, h)
    &&& !hits_wheel_well(placed_at(pool[k], l, w, h), van)
}

pub open spec fn keep_positive(m: Multiset<Cuboid>, c: Cuboid) -> Multiset<Cuboid> {
    if positive(c) { m.insert(c) } else { m }
}

/// The pool after a box of `l × w × h` goes at the origin of cuboid `k`:
/// that cuboid replaced by its positive residuals.
pub open spec fn pool_after(pool: Seq<Cuboid>, k: int, l: i64, w: i64, h: i64) -> Multiset<Cuboid> {
    let s = pool[k];
    keep_positive(keep_positive(keep_positive(pool.remove(k).to_multiset(), split_x(s, l)), split_z(s, l, w)), split_y(s, l, w, h))
}

pub open spec fn van_box(van: Van) -> Cuboid {
    Cuboid { x: 0, y: 0, z: 0, l: van.length_mm, w: van.width_mm, h: van.height_mm }
}

/// One turn of the loading: the item, and whether it was placed.
pub type Turn = (CargoItem, bool);

/// A turn from pool `pool` to pool `next`: a placed item went into some
/// cuboid that admitted it; an item is left unplaced only when no cuboid of
/// the pool admitted it in any allowed orientation.
pub open spec fn turn_ok(pool: Seq<Cuboid>, next: Seq<Cuboid>, e: Turn, van: Van) -> bool {
    if e.1 {
        exists|k: int, l: i64, w: i64, h: i64| admits(pool, k, e.0, l, w, h, van) && next.to_multiset() == pool_after(pool, k, l, w, h)
    } else {
        &&& next == pool
        &&& forall|k: int, l: i64, w: i64, h: i64| !admits(pool, k, e.0, l, w, h, van)
    }
}

/// The turns of a loading, in loading order, from the empty van.
pub open spec fn load_trace(log: Seq<Turn>, pools: Seq<Seq<Cuboid>>, placed: Seq<CargoItem>, unplaced: Seq<CargoItem>, van: Van) -> bool {
    &&& pools.len() == log.len() + 1
    &&& pools[0] == seq![van_box(van)]
    &&& placed == log.filter(|e: Turn| e.1).map_values(|e: Turn| e.0)
    &&& unplaced == log.filter(|e: Turn| !e.1).map_values(|e: Turn| e.0)
    &&& forall|a: int, b: int| 0 <= a < b < log.len() ==> load_rank((#[trigger] log[a]).0) <= load_rank((#[trigger] log[b]).0)
    &&& forall|t: int| 0 <= t < log.len() ==> turn_ok(pools[t], pools[t + 1], #[trigger] log[t], van)
}

pub open spec fn items_of(ps: Seq<PositionedItem>) -> Seq<CargoItem> {
    ps.map_values(|p: PositionedItem| p.item)
}

pub open spec fn placed_volume(ps: Seq<PositionedItem>) -> int
    decreases ps.len(),
{
    if ps.len() == 0 {
        0
    } else {
        placed_volume(ps.drop_last()) + ps.last().placed_length * ps.last().placed_width * ps.last().placed_height
    }
}

pub open spec fn placed_weight(ps: Seq<PositionedItem>) -> int
    decreases ps.len(),
{
    if ps.len() == 0 {
        0
    } else {
        placed_weight(ps.drop_last()) + ps.last().item.weight_g
    }
}

pub open spec fn unplaced_text(it: CargoItem) -> Seq<char> {
    "Item '"@ + it.description@ + "' could not be placed"@
}

/// The warnings end with one "could not be placed" line per unplaced item,
/// in order.
pub open spec fn warnings_end_with(warnings: Seq<String>, unplaced: Seq<CargoItem>) -> bool {
    &&& warnings.len() >= unplaced.len()
    &&& forall|t: int| 0 <= t < unplaced.len()
        ==> (#[trigger] warnings[warnings.len() - unplaced.len() + t])@ == unplaced_text(unplaced[t])
}

/// Adds a residual cuboid of `s` that is apart from every free cuboid and
/// box to the pool, keeping the pool sound.
fn add_piece(spaces: &mut Vec<Cuboid>, p: Cuboid, Ghost(boxes): Ghost<Seq<Cuboid>>, Ghost(van): Ghost<Van>, Ghost(s): Ghost<Cuboid>)
    requires
        packing_ok(old(spaces)@, boxes, van),
        van_ok(van),
        positive(p),
        inside(p, s),
        in_van(s, van),
        p.y + p.h == van.height_mm,
        forall|u: int| 0 <= u < old(spaces)@.len() ==> cuboids_apart(#[trigger] old(spaces)@[u], p),
        forall|u: int| 0 <= u < boxes.len() ==> cuboids_apart(p, #[trigger] boxes[u]),
    ensures
        packing_ok(final(spaces)@, boxes, van),
        forall|u: int| 0 <= u < final(spaces)@.len() ==> (#[trigger] final(spaces)@[u]) == p || old(spaces)@.contains(final(spaces)@[u]),
        final(spaces)@.to_multiset() == old(spaces)@.to_multiset().insert(p),
{
    let ghost before = spaces@;
    insert_space(spaces, p, Ghost(van));
    proof {
        let pos = choose|pos: int| 0 <= pos <= before.len() && spaces@ == before.insert(pos, p);
        lemma_insert_space(before, boxes, van, pos, p);
        vstd::seq_lib::to_multiset_insert(before, pos, p);
        assert forall|u: int| 0 <= u < spaces@.len() implies (#[trigger] spaces@[u]) == p || before.contains(spaces@[u]) by {
            if u < pos {
                assert(spaces@[u] == before[u]);
            } else if u > pos {
                assert(spaces@[u] == before[u - 1]);
            }
        }
    }
}

proof fn lemma_drop_spaces(spaces: Seq<Cuboid>, boxes: Seq<Cuboid>, van: Van)
    requires
        packing_ok(spaces, boxes, van),
    ensures
        packing_ok(Seq::<Cuboid>::empty(), boxes, van),
{
}

/// The message for an item that found no place.
fn unplaced_warning(it: &CargoItem) -> (r: String)
    ensures
        r@ == unplaced_text(*it),
{
    let mut msg = "Item '".to_string();
    msg.append(it.description.as_str());
    msg.append("' could not be placed");
    msg
}

pub fn validate_items(items: &Vec<CargoItem>) -> (r: Result<(), AppError>)
    ensures
        r is Ok <==> items_ok(items@),
        r matches Err(e) ==> e is Validation,
{
    let mut i: usize = 0;
    while i < items.len()
        invariant
            i <= items@.len(),
            forall|t: int| 0 <= t < i ==> item_ok(#[trigger] items@[t]),
        decreases items.len() - i,
    {
        let it = &items[i];
        if it.length_mm < MIN_ITEM_DIMENSION || it.length_mm > MAX_ITEM_DIMENSION
            || it.width_mm < MIN_ITEM_DIMENSION || it.width_mm > MAX_ITEM_DIMENSION
            || it.height_mm < MIN_ITEM_DIMENSION || it.height_mm > MAX_ITEM_DIMENSION {
            return Err(AppError::Validation("Item dimensions must be 10-5000 mm".to_string()));
        }
        if it.weight_g <= 0 || it.weight_g > MAX_ITEM_WEIGHT_G {
            return Err(AppError::Validation("Item weight must be above 0 and at most 500 kg".to_string()));
        }
        if it.description.as_str().is_empty() {
            return Err(AppError::Validation("Item description cannot be empty".to_string()));
        }
        i += 1;
    }
    Ok(())
}

/// Plans the load of `items` into `van`. An inactive van is not found; an
/// invalid item is rejected; an empty list yields no plan and the warning
/// "No items to load". Otherwise each item, in loading order, goes into the
/// free cuboid and orientation that leave the least free volume, clear of the
/// wheel wells; what fits nowhere is reported with a warning.
pub fn optimize_loading(van: &Van, items: &Vec<CargoItem>) -> (r: Result<OptimizeResponse, AppError>)
    requires
        van_ok(*van),
        items@.len() <= MAX_ITEMS,
    ensures
        r is Ok <==> van.active && items_ok(items@),
        r matches Err(e) ==> (e is NotFound <==> !van.active),
        r matches Ok(resp) ==> (items@.len() == 0 <==> !resp.success),
        r matches Ok(resp) ==> (items@.len() == 0 ==> resp.plan is None && resp.warnings@.len() == 1
            && resp.warnings@[0]@ == "No items to load"@),
        r matches Ok(resp) ==> (items@.len() > 0 ==> (resp.plan matches Some(plan) && plan_ok(plan, resp.unplaced_items@, items@, *van))),
        r matches Ok(resp) ==> (items@.len() > 0 ==> warnings_end_with(resp.warnings@, resp.unplaced_items@)),
        r matches Ok(resp) ==> (items@.len() > 0 ==> (resp.plan matches Some(plan) && exists|log: Seq<Turn>, pools: Seq<Seq<Cuboid>>|
            #[trigger] load_trace(log, pools, items_of(plan.items@), resp.unplaced_items@, *van))),
{
    if !van.active {
        return Err(AppError::NotFound("Van not found or inactive".to_string()));
    }
    match validate_items(items) {
        Err(e) => {
            return Err(e);
        },
        Ok(()) => {},
    }
    if items.len() == 0 {
        let mut warnings: Vec<String> = Vec::new();
        warnings.push("No items to load".to_string());
        return Ok(OptimizeResponse { success: false, plan: None, unplaced_items: Vec::new(), warnings });
    }
    let mut warnings: Vec<String> = Vec::new();
    let mut i: usize = 0;
    let mut requested_weight: i64 = 0;
    while i < items.len()
        invariant
            i <= items@.len(),
            items@.len() <= MAX_ITEMS,
            items_ok(items@),
            van_ok(*van),
            0 <= requested_weight <= i * MAX_ITEM_WEIGHT_G,
        decreases items.len() - i,
    {
        let it = &items[i];
        assert(item_ok(*it));
        let orients = orientations(it);
        let mut fits = false;
        let mut o: usize = 0;
        while o < orients.len()
            invariant
                o <= orients@.len(),
            decreases orients.len() - o,
        {
            let (l, w, h, _rot) = orients[o];
            if l <= van.length_mm && w <= van.width_mm && h <= van.height_mm {
                fits = true;
            }
            o += 1;
        }
        if !fits {
            let mut msg = "Item '".to_string();
            msg.append(it.description.as_str());
            msg.append("' is larger than the van");
            warnings.push(msg);
        }
        proof {
            assert(i * MAX_ITEM_WEIGHT_G + MAX_ITEM_WEIGHT_G == (i + 1) * MAX_ITEM_WEIGHT_G) by (nonlinear_arith);
            assert((i + 1) * MAX_ITEM_WEIGHT_G <= 1_000_000 * MAX_ITEM_WEIGHT_G) by (nonlinear_arith)
                requires
                    i + 1 <= 1_000_000,
            ;
        }
        requested_weight = requested_weight + it.weight_g;
        i += 1;
    }
    if let Some(max_kg) = van.max_weight_kg {
        if max_kg < 0 || (max_kg < 1_000_000_000_000 && requested_weight > max_kg * 1000) {
            warnings.push("Total weight exceeds the van's maximum load".to_string());
        }
    }
    let order = order_items(items);
    let mut spaces: Vec<Cuboid> = Vec::new();
    spaces.push(Cuboid { x: 0, y: 0, z: 0, l: van.length_mm, w: van.width_mm, h: van.height_mm });
    let mut placed: Vec<PositionedItem> = Vec::new();
    let mut unplaced: Vec<CargoItem> = Vec::new();
    let mut used_volume: i64 = 0;
    let mut total_weight: i64 = 0;
    let mut t: usize = 0;
    let ghost w0 = warnings@.len();
    let ghost mut log: Seq<Turn> = Seq::empty();
    let ghost mut pools: Seq<Seq<Cuboid>> = seq![spaces@];
    assert(spaces@ =~= seq![van_box(*van)]);
    proof {
        reveal(Seq::filter);
        assert(log.filter(|e: Turn| e.1).map_values(|e: Turn| e.0) =~= items_of(placed@));
        assert(log.filter(|e: Turn| !e.1).map_values(|e: Turn| e.0) =~= unplaced@);
        crate::search::lemma_empty_to_multiset(order@.subrange(0, 0).map_values(|k: usize| items@[k as int]));
        crate::search::lemma_empty_to_multiset(items_of(placed@));
        crate::search::lemma_empty_to_multiset(unplaced@);
        broadcast use vstd::multiset::group_multiset_axioms;
        assert(items_of(placed@).to_multiset().add(unplaced@.to_multiset())
            =~= order@.subrange(0, 0).map_values(|k: usize| items@[k as int]).to_multiset());
    }
    while t < order.len()
        invariant
            van_ok(*van),
            items_ok(items@),
            items@.len() <= MAX_ITEMS,
            order@.len() == items@.len(),
            forall|u: int| 0 <= u < order@.len() ==> (#[trigger] order@[u]) < items@.len(),
            forall|a: int, b: int| 0 <= a <= b < order@.len()
                ==> load_rank(items@[(#[trigger] order@[a]) as int]) <= load_rank(items@[(#[trigger] order@[b]) as int]),
            t <= order@.len(),
            packing_ok(spaces@, boxes_of(placed@), *van),
            stacked_in_order(boxes_of(placed@)),
            forall|u: int| 0 <= u < placed@.len() ==> items@.contains((#[trigger] placed@[u]).item)
                && allowed_dims(placed@[u].item, placed@[u].placed_length, placed@[u].placed_width, placed@[u].placed_height),
            forall|a: int, b: int| 0 <= a < b < placed@.len() ==> load_rank((#[trigger] placed@[a]).item) <= load_rank((#[trigger] placed@[b]).item),
            forall|a: int, u: int| 0 <= a < placed@.len() && t <= u < order@.len()
                ==> load_rank((#[trigger] placed@[a]).item) <= load_rank(items@[(#[trigger] order@[u]) as int]),
            forall|u: int| 0 <= u < unplaced@.len() ==> items@.contains(#[trigger] unplaced@[u]),
            placed@.len() + unplaced@.len() == t,
            0 <= used_volume <= t * MAX_ITEM_VOLUME,
            0 <= total_weight <= t * MAX_ITEM_WEIGHT_G,
            used_volume == placed_volume(placed@),
            total_weight == placed_weight(placed@),
            forall|u: int| 0 <= u < placed@.len() ==> (#[trigger] placed@[u]).level == placed@[u].position.y / LEVEL_HEIGHT,
            items_of(placed@).to_multiset().add(unplaced@.to_multiset())
                == order@.subrange(0, t as int).map_values(|k: usize| items@[k as int]).to_multiset(),
            order@.map_values(|k: usize| items@[k as int]).to_multiset() == items@.to_multiset(),
            warnings@.len() == w0 + unplaced@.len(),
            forall|u: int| 0 <= u < unplaced@.len() ==> (#[trigger] warnings@[w0 + u])@ == unplaced_text(unplaced@[u]),
            pools.len() == t + 1,
            pools[t as int] == spaces@,
            pools[0] == seq![van_box(*van)],
            log.len() == t,
            forall|u: int| 0 <= u < t ==> (#[trigger] log[u]).0 == items@[order@[u] as int],
            items_of(placed@) == log.filter(|e: Turn| e.1).map_values(|e: Turn| e.0),
            unplaced@ == log.filter(|e: Turn| !e.1).map_values(|e: Turn| e.0),
            forall|u: int| 0 <= u < t ==> turn_ok(pools[u], pools[u + 1], #[trigger] log[u], *van),
        decreases order.len() - t,
    {
        let it = &items[order[t]];
        assert(item_ok(*it));
        proof {
            let f = |k: usize| items@[k as int];
            assert(order@.subrange(0, t + 1).map_values(f) =~= order@.subrange(0, t as int).map_values(f).push(*it));
            vstd::seq_lib::to_multiset_build(order@.subrange(0, t as int).map_values(f), *it);
        }
        let orients = orientations(it);
        let mut best_k: usize = spaces.len();
        let mut best_o: usize = 0;
        let mut best_waste: i128 = 0;
        let mut k: usize = 0;
        while k < spaces.len()
            invariant
                van_ok(*van),
                item_ok(*it),
                packing_ok(spaces@, boxes_of(placed@), *van),
                orients@.len() > 0,
                forall|u: int| 0 <= u < orients@.len() ==> allowed_dims(*it, (#[trigger] orients@[u]).0, orients@[u].1, orients@[u].2),
                k <= spaces@.len(),
                best_k == spaces@.len() ==> forall|kk: int, u: int| 0 <= kk < k && 0 <= u < orients@.len()
                    ==> !(fits_space(#[trigger] spaces@[kk], orients@[u].0, orients@[u].1, orients@[u].2)
                        && !hits_wheel_well(placed_at(spaces@[kk], #[trigger] orients@[u].0, orients@[u].1, orients@[u].2), *van)),
                best_k == spaces@.len() || (best_k < k && best_o < orients@.len()
                    && fits_space(spaces@[best_k as int], orients@[best_o as int].0, orients@[best_o as int].1, orients@[best_o as int].2)
                    && !hits_wheel_well(placed_at(spaces@[best_k as int], orients@[best_o as int].0, orients@[best_o as int].1, orients@[best_o as int].2), *van)),
            decreases spaces.len() - k,
        {
            let sp = spaces[k];
            assert(in_van(spaces@[k as int], *van));
            let mut o: usize = 0;
            while o < orients.len()
                invariant
                    van_ok(*van),
                    item_ok(*it),
                    in_van(sp, *van),
                    sp == spaces@[k as int],
                    k < spaces@.len(),
                    orients@.len() > 0,
                    forall|u: int| 0 <= u < orients@.len() ==> allowed_dims(*it, (#[trigger] orients@[u]).0, orients@[u].1, orients@[u].2),
                    o <= orients@.len(),
                    best_k == spaces@.len() ==> forall|kk: int, u: int| (0 <= kk < k && 0 <= u < orients@.len()) || (kk == k && 0 <= u < o)
                        ==> !(fits_space(#[trigger] spaces@[kk], orients@[u].0, orients@[u].1, orients@[u].2)
                            && !hits_wheel_well(placed_at(spaces@[kk], #[trigger] orients@[u].0, orients@[u].1, orients@[u].2), *van)),
                    best_k == spaces@.len() || (best_k <= k && best_o < orients@.len()
                        && fits_space(spaces@[best_k as int], orients@[best_o as int].0, orients@[best_o as int].1, orients@[best_o as int].2)
                        && !hits_wheel_well(placed_at(spaces@[best_k as int], orients@[best_o as int].0, orients@[best_o as int].1, orients@[best_o as int].2), *van)),
                decreases orients.len() - o,
            {
                let (l, w, h, _rot) = orients[o];
                assert(allowed_dims(*it, l, w, h));
                if l <= sp.l && w <= sp.w && h <= sp.h {
                    let c = Cuboid { x: sp.x, y: sp.y, z: sp.z, l, w, h };
                    if !collides_with_wheel_well(c, van) {
                        proof {
                            assert(0 < (sp.l as i128) * (sp.w as i128) <= 10000 * 10000) by (nonlinear_arith)
                                requires
                                    0 < sp.l <= 10000,
                                    0 < sp.w <= 10000,
                            ;
                            assert(0 < (l as i128) * (w as i128) <= 10000 * 10000) by (nonlinear_arith)
                                requires
                                    0 < l <= 10000,
                                    0 < w <= 10000,
                            ;
                            assert(0 < (sp.l as i128) * (sp.w as i128) * (sp.h as i128) <= 10000 * 10000 * 10000) by (nonlinear_arith)
                                requires
                                    0 < (sp.l as i128) * (sp.w as i128) <= 10000 * 10000,
                                    0 < sp.h <= 10000,
                            ;
                            assert(0 < (l as i128) * (w as i128) * (h as i128) <= 10000 * 10000 * 10000) by (nonlinear_arith)
                                requires
                                    0 < (l as i128) * (w as i128) <= 10000 * 10000,
                                    0 < h <= 10000,
                            ;
                        }
                        let sv = (sp.l as i128) * (sp.w as i128) * (sp.h as i128);
                        let iv = (l as i128) * (w as i128) * (h as i128);
                        let waste = sv - iv;
                        if best_k == spaces.len() || waste < best_waste {
                            best_k = k;
                            best_o = o;
                            best_waste = waste;
                        }
                    }
                }
                o += 1;
            }
            k += 1;
        }
        if best_k < spaces.len() {
            let (l, w, h, rot) = orients[best_o];
            let sp = spaces[best_k];
            assert(in_van(spaces@[best_k as int], *van));
            let b = Cuboid { x: sp.x, y: sp.y, z: sp.z, l, w, h };
            let ghost boxes0 = boxes_of(placed@);
            proof {
                lemma_split_pieces(sp, l, w, h);
                lemma_take_space(spaces@, boxes0, *van, best_k as int, b);
            }
            let ghost s0 = spaces@;
            spaces.remove(best_k);
            let pos_item = PositionedItem {
                item: it.copy(),
                position: Position3D { x: sp.x, y: sp.y, z: sp.z },
                rotation: Rotation3D { x: 0, y: rot, z: 0 },
                level: (sp.y / LEVEL_HEIGHT) as i32,
                placed_length: l,
                placed_width: w,
                placed_height: h,
            };
            let ghost placed0 = placed@;
            placed.push(pos_item);
            assert(boxes_of(placed@) =~= boxes0.push(b));
            proof {
                assert(placed@.drop_last() =~= placed0);
                assert(items_of(placed@) =~= items_of(placed0).push(*it));
                vstd::seq_lib::to_multiset_build(items_of(placed0), *it);
                broadcast use vstd::multiset::group_multiset_axioms;
                assert(items_of(placed@).to_multiset().add(unplaced@.to_multiset())
                    =~= items_of(placed0).to_multiset().add(unplaced@.to_multiset()).insert(*it));
            }
            let ghost boxes1 = boxes_of(placed@);
            let px = Cuboid { x: sp.x + l, y: sp.y, z: sp.z, l: sp.l - l, w: sp.w, h: sp.h };
            let pz = Cuboid { x: sp.x, y: sp.y, z: sp.z + w, l, w: sp.w - w, h: sp.h };
            let py = Cuboid { x: sp.x, y: sp.y + h, z: sp.z, l, w, h: sp.h - h };
            assert(px == split_x(sp, l) && pz == split_z(sp, l, w) && py == split_y(sp, l, w, h));
            let ghost rest = spaces@;
            let ghost mut ms = rest.to_multiset();
            assert(rest == s0.remove(best_k as int));
            proof {
                assert(in_van(sp, *van));
                assert(sp.y + sp.h == van.height_mm);
            }
            if px.l > 0 {
                proof {
                    assert forall|u: int| 0 <= u < spaces@.len() implies cuboids_apart(#[trigger] spaces@[u], px) by {
                        lemma_inside_apart(px, sp, rest[u]);
                    }
                }
                add_piece(&mut spaces, px, Ghost(boxes1), Ghost(*van), Ghost(sp));
            }
            proof {
                ms = keep_positive(ms, px);
                assert(spaces@.to_multiset() == ms);
            }
            assert forall|u: int| 0 <= u < spaces@.len() implies (#[trigger] spaces@[u]) == px || rest.contains(spaces@[u]) by {
                if px.l <= 0 {
                    assert(rest[u] == spaces@[u]);
                }
            }
            if pz.w > 0 {
                proof {
                    assert forall|u: int| 0 <= u < spaces@.len() implies cuboids_apart(#[trigger] spaces@[u], pz) by {
                        if spaces@[u] != px {
                            let v = choose|v: int| 0 <= v < rest.len() && rest[v] == spaces@[u];
                            lemma_inside_apart(pz, sp, rest[v]);
                        }
                    }
                }
                let ghost before = spaces@;
                add_piece(&mut spaces, pz, Ghost(boxes1), Ghost(*van), Ghost(sp));
                assert(spaces@.to_multiset() == ms.insert(pz));
                assert forall|u: int| 0 <= u < spaces@.len() implies (#[trigger] spaces@[u]) == px || spaces@[u] == pz
                    || rest.contains(spaces@[u]) by {
                    if spaces@[u] != pz {
                        assert(before.contains(spaces@[u]));
                        let v = choose|v: int| 0 <= v < before.len() && before[v] == spaces@[u];
                        assert(before[v] == px || rest.contains(before[v]));
                    }
                }
            }
            assert forall|u: int| 0 <= u < spaces@.len() implies (#[trigger] spaces@[u]) == px || spaces@[u] == pz
                || rest.contains(spaces@[u]) by {
            }
            if py.h > 0 {
                proof {
                    assert forall|u: int| 0 <= u < spaces@.len() implies cuboids_apart(#[trigger] spaces@[u], py) by {
                        if spaces@[u] != px && spaces@[u] != pz {
                            let v = choose|v: int| 0 <= v < rest.len() && rest[v] == spaces@[u];
                            lemma_inside_apart(py, sp, rest[v]);
                        }
                    }
                }
                add_piece(&mut spaces, py, Ghost(boxes1), Ghost(*van), Ghost(sp));
                assert(spaces@.to_multiset() == keep_positive(keep_positive(ms, pz), py));
            }
            proof {
                assert(0 < l * w <= 5000 * 5000) by (nonlinear_arith)
                    requires
                        10 <= l <= 5000,
                        10 <= w <= 5000,
                ;
                assert(0 < l * w * h <= MAX_ITEM_VOLUME) by (nonlinear_arith)
                    requires
                        0 < l * w <= 5000 * 5000,
                        10 <= h <= 5000,
                ;
                assert(t * MAX_ITEM_VOLUME + MAX_ITEM_VOLUME == (t + 1) * MAX_ITEM_VOLUME) by (nonlinear_arith);
                assert(t * MAX_ITEM_WEIGHT_G + MAX_ITEM_WEIGHT_G == (t + 1) * MAX_ITEM_WEIGHT_G) by (nonlinear_arith);
                assert((t + 1) * MAX_ITEM_VOLUME <= 1_000_000 * MAX_ITEM_VOLUME) by (nonlinear_arith)
                    requires
                        t + 1 <= 1_000_000,
                ;
                assert((t + 1) * MAX_ITEM_WEIGHT_G <= 1_000_000 * MAX_ITEM_WEIGHT_G) by (nonlinear_arith)
                    requires
                        t + 1 <= 1_000_000,
                ;
            }
            used_volume = used_volume + l * w * h;
            total_weight = total_weight + it.weight_g;
            proof {
                if pz.w <= 0 {
                    assert(!positive(pz));
                }
                if py.h <= 0 {
                    assert(!positive(py));
                }
                assert(spaces@.to_multiset() == pool_after(s0, best_k as int, l, w, h));
                assert(admits(s0, best_k as int, *it, l, w, h, *van));
                let e = (*it, true);
                let old_log = log;
                old_log.lemma_filter_push(e, |x: Turn| x.1);
                old_log.lemma_filter_push(e, |x: Turn| !x.1);
                assert(old_log.push(e).filter(|x: Turn| x.1).map_values(|x: Turn| x.0)
                    =~= old_log.filter(|x: Turn| x.1).map_values(|x: Turn| x.0).push(*it));
                assert(items_of(placed@) =~= items_of(placed0).push(*it));
                log = log.push(e);
                pools = pools.push(spaces@);
                assert(turn_ok(pools[t as int], pools[t + 1], log[t as int], *van));
                assert forall|u: int| 0 <= u < t + 1 implies turn_ok(pools[u], pools[u + 1], #[trigger] log[u], *van) by {
                    if u < t {
                        assert(log[u] == old_log[u]);
                    }
                }
            }
            t += 1;
        } else {
            let ghost unplaced0 = unplaced@;
            proof {
                assert forall|kk: int, l: i64, w: i64, h: i64| !admits(spaces@, kk, *it, l, w, h, *van) by {
                    if admits(spaces@, kk, *it, l, w, h, *van) {
                        assert(allowed_dims(*it, l, w, h));
                        let u = choose|u: int| 0 <= u < orients@.len() && orients@[u].0 == l && orients@[u].1 == w && orients@[u].2 == h;
                        assert(!(fits_space(spaces@[kk], orients@[u].0, orients@[u].1, orients@[u].2)
                            && !hits_wheel_well(placed_at(spaces@[kk], orients@[u].0, orients@[u].1, orients@[u].2), *van)));
                    }
                }
                let e = (*it, false);
                let old_log = log;
                old_log.lemma_filter_push(e, |x: Turn| x.1);
                old_log.lemma_filter_push(e, |x: Turn| !x.1);
                assert(old_log.push(e).filter(|x: Turn| !x.1).map_values(|x: Turn| x.0)
                    =~= old_log.filter(|x: Turn| !x.1).map_values(|x: Turn| x.0).push(*it));
                log = log.push(e);
                pools = pools.push(spaces@);
                assert(turn_ok(pools[t as int], pools[t + 1], log[t as int], *van));
                assert forall|u: int| 0 <= u < t + 1 implies turn_ok(pools[u], pools[u + 1], #[trigger] log[u], *van) by {
                    if u < t {
                        assert(log[u] == old_log[u]);
                    }
                }
            }
            unplaced.push(it.copy());
            warnings.push(unplaced_warning(it));
            proof {
                vstd::seq_lib::to_multiset_build(unplaced0, *it);
                broadcast use vstd::multiset::group_multiset_axioms;
                assert(items_of(placed@).to_multiset().add(unplaced@.to_multiset())
                    =~= items_of(placed@).to_multiset().add(unplaced0.to_multiset()).insert(*it));
                assert forall|u: int| 0 <= u < unplaced@.len() implies (#[trigger] warnings@[w0 + u])@ == unplaced_text(unplaced@[u]) by {
                    if u < unplaced0.len() {
                        assert(unplaced@[u] == unplaced0[u]);
                    }
                }
            }
            proof {
                assert(t * MAX_ITEM_VOLUME <= (t + 1) * MAX_ITEM_VOLUME) by (nonlinear_arith);
                assert(t * MAX_ITEM_WEIGHT_G <= (t + 1) * MAX_ITEM_WEIGHT_G) by (nonlinear_arith);
            }
            t += 1;
        }
    }
    proof {
        assert(order@.subrange(0, t as int) =~= order@);
        assert forall|a: int, bb: int| 0 <= a < bb < log.len() implies load_rank((#[trigger] log[a]).0) <= load_rank((#[trigger] log[bb]).0) by {
            assert(log[a].0 == items@[order@[a] as int]);
            assert(log[bb].0 == items@[order@[bb] as int]);
        }
        assert(load_trace(log, pools, items_of(placed@), unplaced@, *van));
        lemma_drop_spaces(spaces@, boxes_of(placed@), *van);
        assert(0 < van.length_mm * van.width_mm <= 10000 * 10000) by (nonlinear_arith)
            requires
                0 < van.length_mm <= 10000,
                0 < van.width_mm <= 10000,
        ;
        assert(0 < van.length_mm * van.width_mm * van.height_mm <= 10000 * 10000 * 10000) by (nonlinear_arith)
            requires
                0 < van.length_mm * van.width_mm <= 10000 * 10000,
                0 < van.height_mm <= 10000,
        ;
    }
    let plan = LoadingPlan {
        items: placed,
        total_weight_g: total_weight,
        van_volume: van.length_mm * van.width_mm * van.height_mm,
        used_volume,
    };
    Ok(OptimizeResponse { success: true, plan: Some(plan), unplaced_items: unplaced, warnings })
}

/// A fragile item is never underneath a sturdy one: of two placed items
/// whose footprints overlap, the sturdy one lies below the fragile one.
pub proof fn lemma_fragile_never_underneath(
    plan: LoadingPlan,
    unplaced: Seq<CargoItem>,
    items: Seq<CargoItem>,
    van: Van,
    a: int,
    b: int,
)
    requires
        plan_ok(plan, unplaced, items, van),
        items_ok(items),
        0 <= a < plan.items@.len(),
        0 <= b < plan.items@.len(),
        plan.items@[a].item.fragile,
        !plan.items@[b].item.fragile,
        footprints_overlap(box_of(plan.items@[a]), box_of(plan.items@[b])),
    ensures
        box_of(plan.items@[b]).y + box_of(plan.items@[b]).h <= box_of(plan.items@[a]).y,
{
    let placed = plan.items@;
    let boxes = boxes_of(placed);
    assert(items.contains(placed[a].item));
    assert(items.contains(placed[b].item));
    let ia = choose|i: int| 0 <= i < items.len() && items[i] == placed[a].item;
    let ib = choose|i: int| 0 <= i < items.len() && items[i] == placed[b].item;
    assert(item_ok(items[ia]) && item_ok(items[ib]));
    if a < b {
        lemma_rank_keeps_fragile_last(placed[a].item, placed[b].item);
    }
    assert(b < a);
    assert(boxes[b] == box_of(placed[b]) && boxes[a] == box_of(placed[a]));
    assert(footprints_overlap(boxes[b], boxes[a]));
}

} // verus!
