//! Guillotine cutting of a cut list onto leftover planks: the request and
//! response types, validation, the virtual full sheets added when the stock
//! runs short, and the laws that every response obeys.

use vstd::prelude::*;
use vstd::multiset::Multiset;
use crate::layout::{Placement, cut_zone, lemma_charge_bounded, lemma_free_sums_nonneg_on_plank, lemma_layout_charge_bounded, plank_layout_ok, sum_cut_area, sum_cut_charge, sum_cut_grown_area};
use crate::search::{MAX_OPENED, OpenedPlank, OpenedView, is_opened, beam_search, expand_cuts, placed_count, placed_indices, plank_area};
use crate::geometry::{FreeRect, grown, on_plank, zones_apart};
use crate::text::{decimal, decimal_of, lower_of};
use crate::validation::{AppError, MAX_DIMENSION, MAX_THICKNESS};

verus! {

pub const FULL_SHEET_W: i64 = 2800;

pub const FULL_SHEET_H: i64 = 3000;

pub const MAX_EXTRA_SHEETS: i64 = 10;

pub const MIN_CUT_DIMENSION: i64 = 10;

pub const MAX_QUANTITY: i32 = 1000;

/// A leftover plank of the inventory.
pub struct Leftover {
    pub id: i64,
    pub width_mm: i64,
    pub height_mm: i64,
    pub thickness_mm: i64,
    pub material: String,
    pub notes: Option<String>,
    pub created_at: String,
}

/// One line of a cut list: `quantity` pieces of `width_mm × height_mm`.
pub struct CutRequest {
    pub width_mm: i64,
    pub height_mm: i64,
    pub thickness_mm: i64,
    pub material: String,
    pub quantity: i32,
}

pub struct OptimizeCutsRequest {
    pub cuts: Vec<CutRequest>,
    pub kerf_width_mm: i64,
    pub min_remainder_width_mm: i64,
    pub min_remainder_height_mm: i64,
}

/// A piece placed on a plank; `rotated` means the request's width and
/// height were swapped.
pub struct PlacedCut {
    pub original_index: usize,
    pub x: i64,
    pub y: i64,
    pub width: i64,
    pub height: i64,
    pub rotated: bool,
    pub material: String,
    pub thickness_mm: i64,
}

/// A plank that received at least one cut.
pub struct UsedPlank {
    pub resto_id: i64,
    pub width_mm: i64,
    pub height_mm: i64,
    pub thickness_mm: i64,
    pub material: String,
    pub cuts: Vec<PlacedCut>,
    pub total_area_mm2: i64,
    pub used_area_mm2: i64,
}

/// The outcome of an optimization. The efficiency over the opened planks is
/// `total_used_area_mm2 / total_available_area_mm2`.
pub struct OptimizeCutsResponse {
    pub success: bool,
    pub total_cuts_placed: usize,
    pub total_cuts_requested: usize,
    pub used_planks: Vec<UsedPlank>,
    pub unplaced_cuts: Vec<(usize, CutRequest)>,
    pub total_used_area_mm2: i64,
    pub total_available_area_mm2: i64,
}

pub fn default_kerf() -> (r: i64)
    ensures
        r == 3,
{
    3
}

pub fn default_min_remainder() -> (r: i64)
    ensures
        r == 100,
{
    100
}

/// A cut may go on a plank of the same material, compared without case, and
/// the same thickness.
pub open spec fn same_stock(plank: Leftover, cut: CutRequest) -> bool {
    lower_of(plank.material@) == lower_of(cut.material@) && plank.thickness_mm == cut.thickness_mm
}

pub open spec fn cut_request_ok(c: CutRequest) -> bool {
    &&& MIN_CUT_DIMENSION <= c.width_mm <= MAX_DIMENSION
    &&& MIN_CUT_DIMENSION <= c.height_mm <= MAX_DIMENSION
    &&& 1 <= c.thickness_mm <= MAX_THICKNESS
    &&& 1 <= c.quantity <= MAX_QUANTITY
}

pub open spec fn cut_list_ok(cuts: Seq<CutRequest>) -> bool {
    forall|i: int| 0 <= i < cuts.len() ==> cut_request_ok(#[trigger] cuts[i])
}

/// A plank that the optimizer can cut: both sides between
/// `MIN_CUT_DIMENSION` and `MAX_DIMENSION`.
pub open spec fn plank_ok(p: Leftover) -> bool {
    &&& MIN_CUT_DIMENSION <= p.width_mm <= MAX_DIMENSION
    &&& MIN_CUT_DIMENSION <= p.height_mm <= MAX_DIMENSION
}

pub open spec fn inventory_ok(inv: Seq<Leftover>) -> bool {
    forall|i: int| 0 <= i < inv.len() ==> plank_ok(#[trigger] inv[i])
}

pub open spec fn kerf_ok(kerf: i64) -> bool {
    0 <= kerf <= MAX_DIMENSION
}

/// The cut fits on the whole plank, as requested or rotated.
pub open spec fn fits_plank(p: Leftover, c: CutRequest) -> bool {
    (c.width_mm <= p.width_mm && c.height_mm <= p.height_mm) || (c.height_mm <= p.width_mm && c.width_mm <= p.height_mm)
}

/// The placed size is the requested one, swapped when `rotated`.
pub open spec fn oriented(rotated: bool, width: i64, height: i64, cut: CutRequest) -> bool {
    if rotated {
        width == cut.height_mm && height == cut.width_mm
    } else {
        width == cut.width_mm && height == cut.height_mm
    }
}

pub open spec fn placement_matches(c: Placement, cuts: Seq<CutRequest>) -> bool {
    c.original_index < cuts.len() && oriented(c.rotated, c.width, c.height, cuts[c.original_index as int])
}

/// The number of pieces a cut list asks for.
pub open spec fn total_quantity(cuts: Seq<CutRequest>) -> int
    decreases cuts.len(),
{
    if cuts.len() == 0 {
        0
    } else {
        total_quantity(cuts.drop_last()) + cuts.last().quantity
    }
}

/// Larger pieces are placed first: by area, then by longest side.
pub open spec fn cut_priority(c: CutRequest) -> int {
    c.width_mm * c.height_mm * 20_000 + if c.width_mm >= c.height_mm { c.width_mm as int } else { c.height_mm as int }
}

/// The largest number of lines in a cut list, so that every count fits.
pub const MAX_CUT_LINES: usize = 1_000_000;

pub(crate) proof fn lemma_total_quantity_bounds(cuts: Seq<CutRequest>)
    requires
        cut_list_ok(cuts),
    ensures
        cuts.len() <= total_quantity(cuts) <= cuts.len() * 1000,
    decreases cuts.len(),
{
    if cuts.len() > 0 {
        assert(cut_request_ok(cuts.last()));
        lemma_total_quantity_bounds(cuts.drop_last());
    }
}

pub open spec fn as_placement(c: PlacedCut) -> Placement {
    Placement { original_index: c.original_index, x: c.x, y: c.y, width: c.width, height: c.height, rotated: c.rotated }
}

/// The geometry of the cuts on a used plank.
pub open spec fn plank_cuts(u: UsedPlank) -> Seq<Placement> {
    u.cuts@.map_values(|c: PlacedCut| as_placement(c))
}

/// The cuts on a plank, each grown by the kerf on its right and bottom
/// sides, do not overlap, and each cut lies within the plank.
pub open spec fn cuts_apart(u: UsedPlank, kerf: int) -> bool {
    let cs = plank_cuts(u);
    &&& forall|i: int, j: int| 0 <= i < cs.len() && 0 <= j < cs.len() && i != j
        ==> zones_apart(cut_zone(#[trigger] cs[i], kerf), cut_zone(#[trigger] cs[j], kerf))
    &&& forall|i: int| 0 <= i < cs.len()
        ==> on_plank(#[trigger] cs[i].x as int, cs[i].y as int, cs[i].width as int, cs[i].height as int, u.width_mm as int, u.height_mm as int)
}

/// The areas on a plank add up: the cuts take no more than the plank, and
/// the cuts grown by the kerf no more than the plank grown by the kerf; the
/// charged area is each cut plus one kerf along its width and height.
pub open spec fn areas_fit(u: UsedPlank, kerf: int) -> bool {
    &&& sum_cut_area(plank_cuts(u)) <= u.width_mm * u.height_mm
    &&& sum_cut_grown_area(plank_cuts(u), kerf) <= (u.width_mm + kerf) * (u.height_mm + kerf)
    &&& u.used_area_mm2 == sum_cut_charge(plank_cuts(u), kerf)
    &&& u.total_area_mm2 == u.width_mm * u.height_mm
}

/// Each cut comes from a request of the list, in its size or rotated, and
/// carries that request's material and thickness.
pub open spec fn cuts_match(u: UsedPlank, cuts: Seq<CutRequest>) -> bool {
    forall|i: int| 0 <= i < u.cuts@.len() ==> {
        let c = #[trigger] u.cuts@[i];
        &&& c.original_index < cuts.len()
        &&& oriented(c.rotated, c.width, c.height, cuts[c.original_index as int])
        &&& c.material == cuts[c.original_index as int].material
        &&& c.thickness_mm == cuts[c.original_index as int].thickness_mm
    }
}

/// `u` describes plank `p` of the inventory, and its cuts fit that stock.
pub open spec fn used_plank_of(u: UsedPlank, p: Leftover, cuts: Seq<CutRequest>) -> bool {
    &&& u.resto_id == p.id
    &&& u.width_mm == p.width_mm
    &&& u.height_mm == p.height_mm
    &&& u.thickness_mm == p.thickness_mm
    &&& u.material == p.material
    &&& forall|i: int| 0 <= i < u.cuts@.len() ==> same_stock(p, cuts[(#[trigger] u.cuts@[i]).original_index as int])
}

pub open spec fn used_plank_ok(u: UsedPlank, inv: Seq<Leftover>, cuts: Seq<CutRequest>, kerf: int) -> bool {
    &&& exists|i: int| 0 <= i < inv.len() && used_plank_of(u, inv[i], cuts)
    &&& u.cuts@.len() > 0
    &&& u.cuts@[0].x == 0 && u.cuts@[0].y == 0
    &&& cuts_apart(u, kerf)
    &&& areas_fit(u, kerf)
    &&& cuts_match(u, cuts)
}

pub open spec fn sum_used_area(us: Seq<UsedPlank>) -> int
    decreases us.len(),
{
    if us.len() == 0 {
        0
    } else {
        sum_used_area(us.drop_last()) + us.last().used_area_mm2
    }
}

pub open spec fn sum_total_area(us: Seq<UsedPlank>) -> int
    decreases us.len(),
{
    if us.len() == 0 {
        0
    } else {
        sum_total_area(us.drop_last()) + us.last().total_area_mm2
    }
}

/// The number of cuts placed on the used planks.
pub open spec fn cuts_on_planks(us: Seq<UsedPlank>) -> int
    decreases us.len(),
{
    if us.len() == 0 {
        0
    } else {
        cuts_on_planks(us.drop_last()) + us.last().cuts@.len()
    }
}

/// The request indices of the cuts on the used planks, with multiplicity.
pub open spec fn plank_indices(us: Seq<UsedPlank>) -> Multiset<usize>
    decreases us.len(),
{
    if us.len() == 0 {
        Multiset::empty()
    } else {
        plank_indices(us.drop_last()).add(us.last().cuts@.map_values(|c: PlacedCut| c.original_index).to_multiset())
    }
}

pub open spec fn unplaced_indices(un: Seq<(usize, CutRequest)>) -> Multiset<usize> {
    un.map_values(|e: (usize, CutRequest)| e.0).to_multiset()
}

/// Each line of the request is accounted for exactly: its `quantity`
/// pieces are on the used planks or among the unplaced cuts.
pub open spec fn all_accounted(resp: OptimizeCutsResponse, cuts: Seq<CutRequest>) -> bool {
    forall|k: int| 0 <= k < cuts.len()
        ==> #[trigger] plank_indices(resp.used_planks@).add(unplaced_indices(resp.unplaced_cuts@)).count(k as usize) == cuts[k].quantity
}

/// What an optimization over `inv` returns for `req`, whatever the search
/// chose: sound used planks, the unplaced cuts as they were requested, and
/// totals that add up.
/// `idx` names the inventory plank behind each used plank: distinct planks,
/// and every plank that no cut opened is one that none of the unplaced cuts
/// fits on, in either orientation, among those of its stock.
pub open spec fn planks_drawn(resp: OptimizeCutsResponse, cuts: Seq<CutRequest>, inv: Seq<Leftover>, idx: Seq<int>) -> bool {
    let used = resp.used_planks@;
    let un = resp.unplaced_cuts@;
    &&& idx.len() == used.len()
    &&& forall|j: int| 0 <= j < idx.len() ==> 0 <= #[trigger] idx[j] < inv.len() && used_plank_of(used[j], inv[idx[j]], cuts)
    &&& forall|a: int, b: int| 0 <= a < idx.len() && 0 <= b < idx.len() && a != b ==> #[trigger] idx[a] != #[trigger] idx[b]
    &&& forall|u: int, i: int| #![trigger un[u], inv[i]]
        0 <= u < un.len() && 0 <= i < inv.len() && !idx.contains(i) && same_stock(inv[i], cuts[un[u].0 as int])
        ==> !fits_plank(inv[i], cuts[un[u].0 as int])
}

pub open spec fn response_ok(resp: OptimizeCutsResponse, req: OptimizeCutsRequest, inv: Seq<Leftover>) -> bool {
    let cuts = req.cuts@;
    &&& resp.success
    &&& exists|idx: Seq<int>| #[trigger] planks_drawn(resp, cuts, inv, idx)
    &&& forall|j: int| 0 <= j < resp.used_planks@.len()
        ==> used_plank_ok(#[trigger] resp.used_planks@[j], inv, cuts, req.kerf_width_mm as int)
    &&& forall|j: int| 0 <= j < resp.unplaced_cuts@.len() ==> {
        &&& (#[trigger] resp.unplaced_cuts@[j]).0 < cuts.len()
        &&& resp.unplaced_cuts@[j].1 == cuts[resp.unplaced_cuts@[j].0 as int]
    }
    &&& resp.total_cuts_requested == total_quantity(cuts)
    &&& resp.total_cuts_placed + resp.unplaced_cuts@.len() == resp.total_cuts_requested
    &&& cuts_on_planks(resp.used_planks@) == resp.total_cuts_placed
    &&& all_accounted(resp, cuts)
    &&& resp.total_used_area_mm2 == sum_used_area(resp.used_planks@)
    &&& resp.total_available_area_mm2 == sum_total_area(resp.used_planks@)
}

impl CutRequest {
    pub fn copy(&self) -> (r: CutRequest)
        ensures
            r == *self,
    {
        CutRequest {
            width_mm: self.width_mm,
            height_mm: self.height_mm,
            thickness_mm: self.thickness_mm,
            material: self.material.clone(),
            quantity: self.quantity,
        }
    }
}

/// The public form of an opened plank.
fn used_plank(e: &OpenedPlank, inv: &Vec<Leftover>, cuts: &Vec<CutRequest>, Ghost(fs): Ghost<Seq<FreeRect>>, kerf: i64) -> (u: UsedPlank)
    requires
        e.index < inv@.len(),
        inventory_ok(inv@),
        kerf_ok(kerf),
        e.cuts@.len() > 0,
        e.cuts@[0].x == 0 && e.cuts@[0].y == 0,
        plank_layout_ok(e.cuts@, fs, inv@[e.index as int], kerf as int),
        e.used_area == sum_cut_charge(e.cuts@, kerf as int),
        forall|t: int| 0 <= t < e.cuts@.len() ==> {
            &&& placement_matches(#[trigger] e.cuts@[t], cuts@)
            &&& same_stock(inv@[e.index as int], cuts@[e.cuts@[t].original_index as int])
        },
    ensures
        used_plank_ok(u, inv@, cuts@, kerf as int),
        used_plank_of(u, inv@[e.index as int], cuts@),
        u.used_area_mm2 == e.used_area,
        u.total_area_mm2 == plank_area(inv@[e.index as int]),
        u.cuts@.len() == e.cuts@.len(),
        u.cuts@.map_values(|c: PlacedCut| c.original_index) == e.cuts@.map_values(|c: Placement| c.original_index),
{
    let plank = &inv[e.index];
    let mut placed: Vec<PlacedCut> = Vec::new();
    let mut t: usize = 0;
    while t < e.cuts.len()
        invariant
            t <= e.cuts@.len(),
            placed@.len() == t,
            forall|s: int| 0 <= s < e.cuts@.len() ==> placement_matches(#[trigger] e.cuts@[s], cuts@),
            forall|s: int| 0 <= s < t ==> {
                &&& as_placement(#[trigger] placed@[s]) == e.cuts@[s]
                &&& placed@[s].material == cuts@[e.cuts@[s].original_index as int].material
                &&& placed@[s].thickness_mm == cuts@[e.cuts@[s].original_index as int].thickness_mm
            },
        decreases e.cuts.len() - t,
    {
        let c = e.cuts[t];
        assert(placement_matches(e.cuts@[t as int], cuts@));
        let req = &cuts[c.original_index];
        placed.push(PlacedCut {
            original_index: c.original_index,
            x: c.x,
            y: c.y,
            width: c.width,
            height: c.height,
            rotated: c.rotated,
            material: req.material.clone(),
            thickness_mm: req.thickness_mm,
        });
        t += 1;
    }
    proof {
        let pl = inv@[e.index as int];
        assert(plank_ok(pl));
        assert(0 < pl.width_mm * pl.height_mm <= 10000 * 10000) by (nonlinear_arith)
            requires
                0 < pl.width_mm <= 10000,
                0 < pl.height_mm <= 10000,
        ;
    }
    let u = UsedPlank {
        resto_id: plank.id,
        width_mm: plank.width_mm,
        height_mm: plank.height_mm,
        thickness_mm: plank.thickness_mm,
        material: plank.material.clone(),
        cuts: placed,
        total_area_mm2: plank.width_mm * plank.height_mm,
        used_area_mm2: e.used_area,
    };
    proof {
        assert(plank_cuts(u) =~= e.cuts@);
        assert(u.cuts@.map_values(|c: PlacedCut| c.original_index) =~= e.cuts@.map_values(|c: Placement| c.original_index)) by {
            assert forall|i: int| 0 <= i < u.cuts@.len() implies u.cuts@[i].original_index == e.cuts@[i].original_index by {
                assert(as_placement(u.cuts@[i]) == e.cuts@[i]);
            }
        }
        let pl = inv@[e.index as int];
        assert(used_plank_of(u, pl, cuts@)) by {
            assert forall|i: int| 0 <= i < u.cuts@.len() implies same_stock(pl, cuts@[(#[trigger] u.cuts@[i]).original_index as int]) by {
                assert(as_placement(u.cuts@[i]) == e.cuts@[i]);
            }
        }
        assert forall|i: int| 0 <= i < u.cuts@.len() implies {
            let c = #[trigger] u.cuts@[i];
            &&& c.original_index < cuts@.len()
            &&& oriented(c.rotated, c.width, c.height, cuts@[c.original_index as int])
            &&& c.material == cuts@[c.original_index as int].material
            &&& c.thickness_mm == cuts@[c.original_index as int].thickness_mm
        } by {
            assert(as_placement(u.cuts@[i]) == e.cuts@[i]);
            assert(placement_matches(e.cuts@[i], cuts@));
        }
        lemma_free_sums_nonneg_on_plank(fs, pl, kerf as int);
    }
    u
}

/// One pass of the optimizer over a fixed inventory: expand and order the
/// cuts, search, and report the best candidate.
pub fn run_optimization_sync(req: &OptimizeCutsRequest, inv: &Vec<Leftover>) -> (resp: OptimizeCutsResponse)
    requires
        cut_list_ok(req.cuts@),
        req.cuts@.len() <= MAX_CUT_LINES,
        inventory_ok(inv@),
        kerf_ok(req.kerf_width_mm),
    ensures
        response_ok(resp, *req, inv@),
{
    let kerf = req.kerf_width_mm;
    let order = expand_cuts(&req.cuts);
    proof {
        lemma_total_quantity_bounds(req.cuts@);
    }
    let best = beam_search(inv, &req.cuts, &order, kerf);
    let ghost op = best.opened_view();
    let ghost fr = best.free_view();

    let mut used_planks: Vec<UsedPlank> = Vec::new();
    let mut total_used: i64 = 0;
    let mut total_available: i64 = 0;
    let mut j: usize = 0;
    while j < best.opened.len()
        invariant
            j <= best.opened@.len(),
            best.opened@.len() <= MAX_OPENED,
            op == best.opened_view(),
            fr == best.free_view(),
            best.wf(inv@, req.cuts@, kerf as int),
            inventory_ok(inv@),
            kerf_ok(kerf),
            used_planks@.len() == j,
            forall|t: int| 0 <= t < j ==> used_plank_ok(#[trigger] used_planks@[t], inv@, req.cuts@, kerf as int),
            forall|t: int| 0 <= t < j ==> used_plank_of(#[trigger] used_planks@[t], inv@[op[t].0 as int], req.cuts@),
            total_used == sum_used_area(used_planks@),
            total_available == sum_total_area(used_planks@),
            cuts_on_planks(used_planks@) == placed_count(op.subrange(0, j as int)),
            plank_indices(used_planks@) == placed_indices(op.subrange(0, j as int)),
            0 <= total_used <= j * 400_000_000,
            0 <= total_available <= j * 100_000_000,
        decreases best.opened.len() - j,
    {
        let e = &best.opened[j];
        assert(op[j as int] == e@);
        assert(e.cuts@[0].x == 0 && e.cuts@[0].y == 0);
        proof {
            let pl = inv@[e.index as int];
            assert(plank_ok(pl));
            lemma_layout_charge_bounded(e.cuts@, fr[e.index as int], pl, kerf as int);
            assert((pl.width_mm + kerf) * (pl.height_mm + kerf) <= 20000 * 20000) by (nonlinear_arith)
                requires
                    0 < pl.width_mm <= 10000,
                    0 < pl.height_mm <= 10000,
                    0 <= kerf <= 10000,
            ;
            assert(0 < pl.width_mm * pl.height_mm <= 10000 * 10000) by (nonlinear_arith)
                requires
                    0 < pl.width_mm <= 10000,
                    0 < pl.height_mm <= 10000,
            ;
            assert forall|t: int| 0 <= t < e.cuts@.len() implies {
                &&& placement_matches(#[trigger] e.cuts@[t], req.cuts@)
                &&& same_stock(inv@[e.index as int], req.cuts@[e.cuts@[t].original_index as int])
            } by {
                assert(op[j as int].1[t] == e.cuts@[t]);
            }
        }
        let u = used_plank(e, inv, &req.cuts, Ghost(fr[e.index as int]), kerf);
        total_used = total_used + u.used_area_mm2;
        total_available = total_available + u.total_area_mm2;
        let ghost before = used_planks@;
        used_planks.push(u);
        proof {
            assert(used_planks@.drop_last() =~= before);
            assert(op.subrange(0, j + 1).drop_last() =~= op.subrange(0, j as int));
        }
        j += 1;
    }

    let mut unplaced_cuts: Vec<(usize, CutRequest)> = Vec::new();
    let mut i: usize = 0;
    while i < best.unplaced.len()
        invariant
            i <= best.unplaced@.len(),
            best.wf(inv@, req.cuts@, kerf as int),
            unplaced_cuts@.len() == i,
            unplaced_cuts@.map_values(|e: (usize, CutRequest)| e.0) == best.unplaced@.subrange(0, i as int),
            forall|t: int| 0 <= t < i ==> {
                &&& (#[trigger] unplaced_cuts@[t]).0 < req.cuts@.len()
                &&& unplaced_cuts@[t].1 == req.cuts@[unplaced_cuts@[t].0 as int]
            },
        decreases best.unplaced.len() - i,
    {
        let o = best.unplaced[i];
        assert(o < req.cuts@.len());
        unplaced_cuts.push((o, req.cuts[o].copy()));
        i += 1;
        assert(unplaced_cuts@.map_values(|e: (usize, CutRequest)| e.0) =~= best.unplaced@.subrange(0, i as int));
    }
    let requested = order.len();
    assert(op.subrange(0, op.len() as int) =~= op);
    assert(best.unplaced@.subrange(0, i as int) =~= best.unplaced@);
    assert(unplaced_cuts@.map_values(|e: (usize, CutRequest)| e.0) =~= best.unplaced@);
    let resp = OptimizeCutsResponse {
        success: true,
        total_cuts_placed: requested - unplaced_cuts.len(),
        total_cuts_requested: requested,
        used_planks,
        unplaced_cuts,
        total_used_area_mm2: total_used,
        total_available_area_mm2: total_available,
    };
    proof {
        let idx = op.map_values(|e: OpenedView| e.0 as int);
        let un = resp.unplaced_cuts@;
        assert forall|t: int| 0 <= t < un.len() implies #[trigger] un[t].0 == best.unplaced@[t] by {
            assert(un.map_values(|e: (usize, CutRequest)| e.0)[t] == un[t].0);
        }
        assert forall|u: int, ii: int| #![trigger un[u], inv@[ii]]
            0 <= u < un.len() && 0 <= ii < inv@.len() && !idx.contains(ii) && same_stock(inv@[ii], req.cuts@[un[u].0 as int])
            implies !fits_plank(inv@[ii], req.cuts@[un[u].0 as int]) by {
            assert(un[u].0 == best.unplaced@[u]);
            if is_opened(op, ii) {
                let j = choose|j: int| 0 <= j < op.len() && op[j].0 == ii;
                assert(idx[j] == ii);
            }
        }
        assert forall|a: int, b: int| 0 <= a < idx.len() && 0 <= b < idx.len() && a != b implies #[trigger] idx[a] != #[trigger] idx[b] by {
            assert(op[a].0 != op[b].0);
        }
        assert(planks_drawn(resp, req.cuts@, inv@, idx));
    }
    resp
}

/// The message of a rejected cut line: `Cut <index>: <reason>`.
fn cut_error(index: usize, reason: &str) -> (e: AppError)
    ensures
        e matches AppError::Validation(m) && m@ == "Cut "@ + decimal_of(index as nat) + ": "@ + reason@,
{
    let mut msg = "Cut ".to_string();
    msg.append(decimal(index).as_str());
    msg.append(": ");
    msg.append(reason);
    AppError::Validation(msg)
}

/// Why a cut line is rejected: its first field out of bounds.
pub open spec fn cut_rejection(c: CutRequest) -> Seq<char> {
    if !(MIN_CUT_DIMENSION <= c.width_mm <= MAX_DIMENSION) {
        "width must be 10-10000mm"@
    } else if !(MIN_CUT_DIMENSION <= c.height_mm <= MAX_DIMENSION) {
        "height must be 10-10000mm"@
    } else if !(1 <= c.thickness_mm <= MAX_THICKNESS) {
        "thickness must be 1-1000mm"@
    } else {
        "quantity must be 1-1000"@
    }
}

/// The error for a cut list: `Cut <i>: <reason>` for its first bad line `i`.
pub open spec fn cut_list_error(cuts: Seq<CutRequest>, e: AppError) -> bool {
    exists|i: int| {
        &&& 0 <= i < cuts.len()
        &&& !cut_request_ok(#[trigger] cuts[i])
        &&& forall|j: int| 0 <= j < i ==> cut_request_ok(#[trigger] cuts[j])
        &&& e matches AppError::Validation(m) && m@ == "Cut "@ + decimal_of(i as nat) + ": "@ + cut_rejection(cuts[i])
    }
}

/// Checks every line of the cut list; the kerf is not part of validation.
pub fn validate_cut_request(req: &OptimizeCutsRequest) -> (r: Result<(), AppError>)
    ensures
        r is Ok <==> cut_list_ok(req.cuts@),
        r matches Err(e) ==> cut_list_error(req.cuts@, e),
{
    let mut i: usize = 0;
    while i < req.cuts.len()
        invariant
            i <= req.cuts@.len(),
            forall|t: int| 0 <= t < i ==> cut_request_ok(#[trigger] req.cuts@[t]),
        decreases req.cuts.len() - i,
    {
        let c = &req.cuts[i];
        proof {
            reveal_strlit("width must be 10-10000mm");
            reveal_strlit("height must be 10-10000mm");
            reveal_strlit("thickness must be 1-1000mm");
            reveal_strlit("quantity must be 1-1000");
        }
        if c.width_mm < MIN_CUT_DIMENSION || c.width_mm > MAX_DIMENSION {
            return Err(cut_error(i, "width must be 10-10000mm"));
        }
        if c.height_mm < MIN_CUT_DIMENSION || c.height_mm > MAX_DIMENSION {
            return Err(cut_error(i, "height must be 10-10000mm"));
        }
        if c.thickness_mm < 1 || c.thickness_mm > MAX_THICKNESS {
            return Err(cut_error(i, "thickness must be 1-1000mm"));
        }
        if c.quantity < 1 || c.quantity > MAX_QUANTITY {
            return Err(cut_error(i, "quantity must be 1-1000"));
        }
        i += 1;
    }
    Ok(())
}

/// Virtual full sheets are cut from the material and thickness of the first
/// line of the request, or from a default stock for an empty list.
pub open spec fn sheet_stock(p: Leftover, req: OptimizeCutsRequest) -> bool {
    if req.cuts@.len() > 0 {
        p.material == req.cuts@[0].material && p.thickness_mm == req.cuts@[0].thickness_mm
    } else {
        p.material@ == "Unknown"@ && p.thickness_mm == 18
    }
}

/// The `n`-th virtual full sheet: id `-n`, `FULL_SHEET_W × FULL_SHEET_H`.
pub open spec fn virtual_sheet(p: Leftover, n: int, req: OptimizeCutsRequest) -> bool {
    &&& p.id == -n
    &&& p.width_mm == FULL_SHEET_W
    &&& p.height_mm == FULL_SHEET_H
    &&& sheet_stock(p, req)
}

/// `inv` is `base` followed by virtual sheets `1..=n`.
pub open spec fn with_sheets(base: Seq<Leftover>, inv: Seq<Leftover>, n: int, req: OptimizeCutsRequest) -> bool {
    &&& inv.len() == base.len() + n
    &&& inv.subrange(0, base.len() as int) == base
    &&& forall|k: int| 0 <= k < n ==> virtual_sheet(#[trigger] inv[base.len() + k], k + 1, req)
}

/// Optimizes a cut list against the inventory: rejects an invalid request;
/// otherwise runs the search, and while cuts stay unplaced adds one more
/// virtual full sheet and runs it again, up to `MAX_EXTRA_SHEETS` sheets.
pub fn optimize_cuts(req: &OptimizeCutsRequest, inventory: Vec<Leftover>) -> (r: Result<OptimizeCutsResponse, AppError>)
    requires
        inventory_ok(inventory@),
        req.cuts@.len() <= MAX_CUT_LINES,
        kerf_ok(req.kerf_width_mm),
    ensures
        r is Ok <==> cut_list_ok(req.cuts@),
        r matches Err(e) ==> cut_list_error(req.cuts@, e),
        r matches Ok(resp) ==> exists|inv: Seq<Leftover>, n: int| {
            &&& 0 <= n <= MAX_EXTRA_SHEETS
            &&& #[trigger] with_sheets(inventory@, inv, n, *req)
            &&& response_ok(resp, *req, inv)
            &&& n < MAX_EXTRA_SHEETS ==> resp.unplaced_cuts@.len() == 0
            &&& n > 0 ==> exists|prev: OptimizeCutsResponse| response_ok(prev, *req, inv.drop_last())
                && #[trigger] prev.unplaced_cuts@.len() > 0
        },
{
    match validate_cut_request(req) {
        Err(e) => {
            return Err(e);
        },
        Ok(()) => {},
    }
    let (material, thickness) = if req.cuts.len() > 0 {
        (req.cuts[0].material.clone(), req.cuts[0].thickness_mm)
    } else {
        ("Unknown".to_string(), 18)
    };
    let ghost base = inventory@;
    let mut current = inventory;
    let mut response = run_optimization_sync(req, &current);
    let mut extra: i64 = 0;
    assert(current@.subrange(0, base.len() as int) =~= base);
    while response.unplaced_cuts.len() > 0 && extra < MAX_EXTRA_SHEETS
        invariant
            cut_list_ok(req.cuts@),
            kerf_ok(req.kerf_width_mm),
            req.cuts@.len() <= MAX_CUT_LINES,
            extra > 0 ==> exists|prev: OptimizeCutsResponse| response_ok(prev, *req, current@.drop_last())
                && #[trigger] prev.unplaced_cuts@.len() > 0,
            0 <= extra <= MAX_EXTRA_SHEETS,
            inventory_ok(current@),
            with_sheets(base, current@, extra as int, *req),
            response_ok(response, *req, current@),
            req.cuts@.len() > 0 ==> material == req.cuts@[0].material && thickness == req.cuts@[0].thickness_mm,
            req.cuts@.len() == 0 ==> material@ == "Unknown"@ && thickness == 18,
        decreases MAX_EXTRA_SHEETS - extra,
    {
        extra += 1;
        let ghost before = current@;
        let ghost prev = response;
        current.push(Leftover {
            id: -extra,
            width_mm: FULL_SHEET_W,
            height_mm: FULL_SHEET_H,
            thickness_mm: thickness,
            material: material.clone(),
            notes: Some("New Full Sheet".to_string()),
            created_at: String::new(),
        });
        proof {
            assert(current@.subrange(0, base.len() as int) =~= before.subrange(0, base.len() as int));
            assert forall|k: int| 0 <= k < extra implies virtual_sheet(#[trigger] current@[base.len() + k], k + 1, *req) by {
                if k < extra - 1 {
                    assert(current@[base.len() + k] == before[base.len() + k]);
                }
            }
            assert forall|i: int| 0 <= i < current@.len() implies plank_ok(#[trigger] current@[i]) by {
                if i < before.len() {
                    assert(current@[i] == before[i]);
                }
            }
            assert(current@.drop_last() =~= before);
            assert(prev.unplaced_cuts@.len() > 0);
        }
        response = run_optimization_sync(req, &current);
    }
    Ok(response)
}

/// No two cuts on a plank overlap once each is grown by the kerf on its
/// right and bottom sides, and each cut lies within the plank.
pub proof fn lemma_no_cut_overlap(resp: OptimizeCutsResponse, req: OptimizeCutsRequest, inv: Seq<Leftover>, j: int, a: int, b: int)
    requires
        response_ok(resp, req, inv),
        0 <= j < resp.used_planks@.len(),
        0 <= a < resp.used_planks@[j].cuts@.len(),
        0 <= b < resp.used_planks@[j].cuts@.len(),
        a != b,
    ensures
        ({
            let u = resp.used_planks@[j];
            let ca = u.cuts@[a];
            let cb = u.cuts@[b];
            let k = req.kerf_width_mm as int;
            &&& zones_apart(grown(ca.x as int, ca.y as int, ca.width as int, ca.height as int, k),
                            grown(cb.x as int, cb.y as int, cb.width as int, cb.height as int, k))
            &&& on_plank(ca.x as int, ca.y as int, ca.width as int, ca.height as int, u.width_mm as int, u.height_mm as int)
        }),
{
    let u = resp.used_planks@[j];
    assert(used_plank_ok(u, inv, req.cuts@, req.kerf_width_mm as int));
    let cs = plank_cuts(u);
    assert(cs[a] == as_placement(u.cuts@[a]) && cs[b] == as_placement(u.cuts@[b]));
}

/// On every opened plank the areas add up: the cuts take no more than the
/// plank; and the cuts with the kerf charged for each take no more than the
/// plank grown by one kerf on its right and bottom sides.
pub proof fn lemma_area_conservation(resp: OptimizeCutsResponse, req: OptimizeCutsRequest, inv: Seq<Leftover>, j: int)
    requires
        response_ok(resp, req, inv),
        kerf_ok(req.kerf_width_mm),
        0 <= j < resp.used_planks@.len(),
    ensures
        ({
            let u = resp.used_planks@[j];
            let k = req.kerf_width_mm as int;
            &&& sum_cut_area(plank_cuts(u)) <= u.total_area_mm2
            &&& u.used_area_mm2 <= (u.width_mm + k) * (u.height_mm + k)
        }),
{
    let u = resp.used_planks@[j];
    let k = req.kerf_width_mm as int;
    assert(used_plank_ok(u, inv, req.cuts@, k));
    let cs = plank_cuts(u);
    assert forall|i: int| 0 <= i < cs.len() implies #[trigger] cs[i].width >= 0 && cs[i].height >= 0 by {
        assert(on_plank(cs[i].x as int, cs[i].y as int, cs[i].width as int, cs[i].height as int, u.width_mm as int, u.height_mm as int));
    }
    lemma_charge_bounded(cs, k);
}

/// A cut marked rotated has the requested width and height swapped; one not
/// marked has them as requested.
pub proof fn lemma_orientation(resp: OptimizeCutsResponse, req: OptimizeCutsRequest, inv: Seq<Leftover>, j: int, a: int)
    requires
        response_ok(resp, req, inv),
        0 <= j < resp.used_planks@.len(),
        0 <= a < resp.used_planks@[j].cuts@.len(),
    ensures
        ({
            let c = resp.used_planks@[j].cuts@[a];
            let r = req.cuts@[c.original_index as int];
            &&& c.original_index < req.cuts@.len()
            &&& c.rotated ==> c.width == r.height_mm && c.height == r.width_mm
            &&& !c.rotated ==> c.width == r.width_mm && c.height == r.height_mm
        }),
{
    assert(used_plank_ok(resp.used_planks@[j], inv, req.cuts@, req.kerf_width_mm as int));
}

/// Virtual sheets carry the ids `-1` to `-n`: when the inventory's own ids
/// are not negative, every used plank with a negative id is one of at most
/// `MAX_EXTRA_SHEETS` sheets.
pub proof fn lemma_virtual_sheet_ids(
    resp: OptimizeCutsResponse,
    req: OptimizeCutsRequest,
    base: Seq<Leftover>,
    inv: Seq<Leftover>,
    n: int,
    j: int,
)
    requires
        response_ok(resp, req, inv),
        with_sheets(base, inv, n, req),
        0 <= n <= MAX_EXTRA_SHEETS,
        forall|i: int| 0 <= i < base.len() ==> (#[trigger] base[i]).id >= 0,
        0 <= j < resp.used_planks@.len(),
        resp.used_planks@[j].resto_id < 0,
    ensures
        -MAX_EXTRA_SHEETS <= resp.used_planks@[j].resto_id <= -1,
        resp.used_planks@[j].width_mm == FULL_SHEET_W,
        resp.used_planks@[j].height_mm == FULL_SHEET_H,
{
    let u = resp.used_planks@[j];
    assert(used_plank_ok(u, inv, req.cuts@, req.kerf_width_mm as int));
    let i = choose|i: int| 0 <= i < inv.len() && used_plank_of(u, inv[i], req.cuts@);
    if i < base.len() {
        assert(inv.subrange(0, base.len() as int)[i] == inv[i]);
        assert(base[i] == inv[i]);
    } else {
        let k = i - base.len();
        assert(virtual_sheet(inv[base.len() + k], k + 1, req));
    }
}

/// Used planks are different planks: when the inventory's ids are distinct,
/// so are the ids of the used planks.
pub proof fn lemma_used_planks_distinct(resp: OptimizeCutsResponse, req: OptimizeCutsRequest, inv: Seq<Leftover>, a: int, b: int)
    requires
        response_ok(resp, req, inv),
        forall|i: int, k: int| 0 <= i < inv.len() && 0 <= k < inv.len() && i != k ==> (#[trigger] inv[i]).id != (#[trigger] inv[k]).id,
        0 <= a < resp.used_planks@.len(),
        0 <= b < resp.used_planks@.len(),
        a != b,
    ensures
        resp.used_planks@[a].resto_id != resp.used_planks@[b].resto_id,
{
    let idx = choose|idx: Seq<int>| #[trigger] planks_drawn(resp, req.cuts@, inv, idx);
    assert(idx[a] != idx[b]);
    assert(used_plank_of(resp.used_planks@[a], inv[idx[a]], req.cuts@));
    assert(used_plank_of(resp.used_planks@[b], inv[idx[b]], req.cuts@));
}

proof fn lemma_cuts_on_planks_bounds(us: Seq<UsedPlank>)
    requires
        forall|j: int| 0 <= j < us.len() ==> (#[trigger] us[j]).cuts@.len() > 0,
    ensures
        cuts_on_planks(us) >= us.len(),
    decreases us.len(),
{
    if us.len() > 0 {
        assert forall|j: int| 0 <= j < us.drop_last().len() implies (#[trigger] us.drop_last()[j]).cuts@.len() > 0 by {
            assert(us.drop_last()[j] == us[j]);
        }
        lemma_cuts_on_planks_bounds(us.drop_last());
    }
}

/// With an empty inventory, a single piece that fits on a full sheet goes
/// on virtual sheet `-1`, and nothing is left unplaced.
pub proof fn lemma_single_cut_on_first_sheet(resp: OptimizeCutsResponse, req: OptimizeCutsRequest, inv: Seq<Leftover>, n: int)
    requires
        req.cuts@.len() == 1,
        req.cuts@[0].quantity == 1,
        req.cuts@[0].width_mm <= FULL_SHEET_W && req.cuts@[0].height_mm <= FULL_SHEET_H,
        0 <= n <= MAX_EXTRA_SHEETS,
        with_sheets(Seq::empty(), inv, n, req),
        response_ok(resp, req, inv),
        n < MAX_EXTRA_SHEETS ==> resp.unplaced_cuts@.len() == 0,
        n > 0 ==> exists|prev: OptimizeCutsResponse| response_ok(prev, req, inv.drop_last())
            && #[trigger] prev.unplaced_cuts@.len() > 0,
    ensures
        n == 1,
        resp.unplaced_cuts@.len() == 0,
        resp.used_planks@.len() == 1,
        resp.used_planks@[0].resto_id == -1,
        resp.used_planks@[0].width_mm == FULL_SHEET_W,
        resp.used_planks@[0].height_mm == FULL_SHEET_H,
{
    reveal_with_fuel(total_quantity, 2);
    assert(req.cuts@.drop_last() =~= Seq::<CutRequest>::empty());
    assert(total_quantity(req.cuts@) == 1);
    let c = req.cuts@[0];
    if n == 0 {
        let idx = choose|idx: Seq<int>| #[trigger] planks_drawn(resp, req.cuts@, inv, idx);
        assert(inv.len() == 0);
        if resp.used_planks@.len() > 0 {
            assert(0 <= idx[0] < inv.len());
        }
        assert(resp.unplaced_cuts@.len() == 1);
    }
    if n >= 2 {
        let prev = choose|prev: OptimizeCutsResponse| response_ok(prev, req, inv.drop_last()) && #[trigger] prev.unplaced_cuts@.len() > 0;
        let pinv = inv.drop_last();
        let idx = choose|idx: Seq<int>| #[trigger] planks_drawn(prev, req.cuts@, pinv, idx);
        assert(virtual_sheet(inv[Seq::<Leftover>::empty().len() + 0int], 0int + 1, req));
        assert(pinv[0] == inv[0]);
        assert forall|j: int| 0 <= j < prev.used_planks@.len() implies (#[trigger] prev.used_planks@[j]).cuts@.len() > 0 by {
            assert(used_plank_ok(prev.used_planks@[j], pinv, req.cuts@, req.kerf_width_mm as int));
        }
        lemma_cuts_on_planks_bounds(prev.used_planks@);
        assert(prev.used_planks@.len() == 0);
        assert(!idx.contains(0));
        let u = prev.unplaced_cuts@[0];
        assert(u.0 < 1);
        assert(same_stock(pinv[0], req.cuts@[u.0 as int]));
        assert(!fits_plank(pinv[0], req.cuts@[u.0 as int]));
    }
    assert(n == 1);
    assert(resp.unplaced_cuts@.len() == 0);
    let idx = choose|idx: Seq<int>| #[trigger] planks_drawn(resp, req.cuts@, inv, idx);
    let us = resp.used_planks@;
    assert forall|j: int| 0 <= j < us.len() implies (#[trigger] us[j]).cuts@.len() > 0 by {
        assert(used_plank_ok(us[j], inv, req.cuts@, req.kerf_width_mm as int));
    }
    lemma_cuts_on_planks_bounds(us);
    assert(us.len() <= 1);
    if us.len() == 0 {
        assert(cuts_on_planks(us) == 0);
    }
    assert(us.len() == 1);
    assert(0 <= idx[0] < 1);
    assert(virtual_sheet(inv[Seq::<Leftover>::empty().len() + 0int], 0int + 1, req));
}

/// With one plank of the cut's stock that the single requested piece fits
/// on, no sheet is added: that plank is the one plank opened, the piece lies
/// at its origin, and nothing is left unplaced.
pub proof fn lemma_single_cut_on_single_plank(
    resp: OptimizeCutsResponse,
    req: OptimizeCutsRequest,
    plank: Leftover,
    inv: Seq<Leftover>,
    n: int,
)
    requires
        req.cuts@.len() == 1,
        req.cuts@[0].quantity == 1,
        same_stock(plank, req.cuts@[0]),
        fits_plank(plank, req.cuts@[0]),
        0 <= n <= MAX_EXTRA_SHEETS,
        with_sheets(seq![plank], inv, n, req),
        response_ok(resp, req, inv),
        n < MAX_EXTRA_SHEETS ==> resp.unplaced_cuts@.len() == 0,
        n > 0 ==> exists|prev: OptimizeCutsResponse| response_ok(prev, req, inv.drop_last())
            && #[trigger] prev.unplaced_cuts@.len() > 0,
    ensures
        n == 0,
        resp.unplaced_cuts@.len() == 0,
        resp.used_planks@.len() == 1,
        resp.used_planks@[0].resto_id == plank.id,
        resp.used_planks@[0].width_mm == plank.width_mm,
        resp.used_planks@[0].height_mm == plank.height_mm,
        resp.used_planks@[0].cuts@.len() == 1,
        resp.used_planks@[0].cuts@[0].x == 0 && resp.used_planks@[0].cuts@[0].y == 0,
{
    reveal_with_fuel(total_quantity, 2);
    assert(req.cuts@.drop_last() =~= Seq::<CutRequest>::empty());
    assert(total_quantity(req.cuts@) == 1);
    assert(inv[0] == plank) by {
        assert(inv.subrange(0, 1)[0] == seq![plank][0]);
    }
    if n >= 1 {
        let prev = choose|prev: OptimizeCutsResponse| response_ok(prev, req, inv.drop_last()) && #[trigger] prev.unplaced_cuts@.len() > 0;
        let pinv = inv.drop_last();
        let idx = choose|idx: Seq<int>| #[trigger] planks_drawn(prev, req.cuts@, pinv, idx);
        assert(pinv[0] == plank);
        assert forall|j: int| 0 <= j < prev.used_planks@.len() implies (#[trigger] prev.used_planks@[j]).cuts@.len() > 0 by {
            assert(used_plank_ok(prev.used_planks@[j], pinv, req.cuts@, req.kerf_width_mm as int));
        }
        lemma_cuts_on_planks_bounds(prev.used_planks@);
        assert(prev.used_planks@.len() == 0);
        assert(!idx.contains(0));
        let u = prev.unplaced_cuts@[0];
        assert(u.0 < 1);
        assert(same_stock(pinv[0], req.cuts@[u.0 as int]));
        assert(!fits_plank(pinv[0], req.cuts@[u.0 as int]));
    }
    assert(n == 0);
    let idx = choose|idx: Seq<int>| #[trigger] planks_drawn(resp, req.cuts@, inv, idx);
    let us = resp.used_planks@;
    assert forall|j: int| 0 <= j < us.len() implies (#[trigger] us[j]).cuts@.len() > 0 by {
        assert(used_plank_ok(us[j], inv, req.cuts@, req.kerf_width_mm as int));
    }
    lemma_cuts_on_planks_bounds(us);
    if us.len() == 0 {
        assert(cuts_on_planks(us) == 0);
    }
    assert(us.len() == 1);
    assert(us.drop_last() =~= Seq::<UsedPlank>::empty());
    assert(cuts_on_planks(us.drop_last()) == 0);
    assert(cuts_on_planks(us) == us[0].cuts@.len());
    assert(0 <= idx[0] < 1);
    assert(used_plank_ok(us[0], inv, req.cuts@, req.kerf_width_mm as int));
}

} // verus!
