//! Beam search over guillotine placements: candidate partial solutions,
//! the placement of one cut, the ranking of options and of candidates.

use vstd::prelude::*;
use vstd::multiset::Multiset;
use crate::cutting::{CutRequest, Leftover, fits_plank, MAX_CUT_LINES, cut_list_ok, cut_priority, cut_request_ok, inventory_ok, kerf_ok, lemma_total_quantity_bounds, placement_matches, plank_ok, same_stock, total_quantity};
use crate::layout::{Placement, copy_placements, copy_rects, cut_charge, layout_ok, lemma_charge_bounded, lemma_free_area_le_grown, lemma_layout_charge_bounded, lemma_place_keeps_layout, plank_layout_ok, sum_cut_area, sum_cut_charge};
use crate::geometry::{FreeRect, free_on_plank, on_plank, split_bounded, split_free_rect, split_parts, sum_free_area, sum_free_grown_area};
use crate::text::{lower_of, lowercase};

verus! {

/// Candidate partial solutions kept after each cut.
pub const BEAM_WIDTH: usize = 5;

/// Placement options kept per candidate and cut.
pub const OPTIONS_PER_STATE: usize = 3;

/// A plank that received cuts: its inventory index, its cuts, the area charged.
pub struct OpenedPlank {
    pub index: usize,
    pub cuts: Vec<Placement>,
    pub used_area: i64,
}

pub type OpenedView = (usize, Seq<Placement>, i64);

impl View for OpenedPlank {
    type V = OpenedView;

    open spec fn view(&self) -> OpenedView {
        (self.index, self.cuts@, self.used_area)
    }
}

/// A candidate partial solution of the search.
pub struct OptimizationState {
    pub opened: Vec<OpenedPlank>,
    /// Free rectangles of each plank, by inventory index.
    pub free_rects: Vec<Vec<FreeRect>>,
    /// Request indices of the cuts that found no place.
    pub unplaced: Vec<usize>,
}

impl OptimizationState {
    pub open spec fn opened_view(&self) -> Seq<OpenedView> {
        self.opened@.map_values(|o: OpenedPlank| o@)
    }

    pub open spec fn free_view(&self) -> Seq<Seq<FreeRect>> {
        self.free_rects@.map_values(|v: Vec<FreeRect>| v@)
    }

    pub open spec fn wf(&self, inv: Seq<Leftover>, cuts: Seq<CutRequest>, kerf: int) -> bool {
        state_wf(self.opened_view(), self.free_view(), self.unplaced@, inv, cuts, kerf)
    }
}

pub open spec fn is_opened(op: Seq<OpenedView>, i: int) -> bool {
    exists|j: int| 0 <= j < op.len() && op[j].0 == i
}

/// A sound candidate: each opened plank is opened once, holds a sound layout
/// of cuts that fit its stock, and is charged for them; a plank not opened
/// has a sound layout without cuts.
pub open spec fn state_wf(
    op: Seq<OpenedView>,
    fr: Seq<Seq<FreeRect>>,
    un: Seq<usize>,
    inv: Seq<Leftover>,
    cuts: Seq<CutRequest>,
    kerf: int,
) -> bool {
    &&& fr.len() == inv.len()
    &&& forall|j: int| 0 <= j < op.len() ==> (#[trigger] op[j]).0 < inv.len()
    &&& forall|i: int, j: int| 0 <= i < op.len() && 0 <= j < op.len() && i != j
        ==> (#[trigger] op[i]).0 != (#[trigger] op[j]).0
    &&& forall|j: int| 0 <= j < op.len() ==> (#[trigger] op[j]).1.len() > 0
    &&& forall|j: int| 0 <= j < op.len()
        ==> plank_layout_ok((#[trigger] op[j]).1, fr[op[j].0 as int], inv[op[j].0 as int], kerf)
    &&& forall|j: int| 0 <= j < op.len() ==> (#[trigger] op[j]).2 == sum_cut_charge(op[j].1, kerf)
    &&& forall|j: int, t: int| 0 <= j < op.len() && 0 <= t < op[j].1.len() ==> {
        &&& placement_matches(#[trigger] op[j].1[t], cuts)
        &&& same_stock(inv[op[j].0 as int], cuts[op[j].1[t].original_index as int])
    }
    &&& forall|i: int| 0 <= i < inv.len() && !is_opened(op, i)
        ==> plank_layout_ok(Seq::<Placement>::empty(), #[trigger] fr[i], inv[i], kerf)
    &&& forall|u: int| 0 <= u < un.len() ==> (#[trigger] un[u]) < cuts.len()
    &&& forall|i: int| 0 <= i < inv.len() && !is_opened(op, i) ==> #[trigger] fr[i] == seq![full_rect(inv[i])]
    &&& forall|j: int| 0 <= j < op.len() ==> (#[trigger] op[j]).1[0].x == 0 && op[j].1[0].y == 0
    &&& forall|u: int, i: int| #![trigger un[u], inv[i]]
        0 <= u < un.len() && 0 <= i < inv.len() && !is_opened(op, i) && same_stock(inv[i], cuts[un[u] as int])
        ==> !fits_plank(inv[i], cuts[un[u] as int])
}

/// The free rectangle of a plank that nothing was cut from.
pub open spec fn full_rect(p: Leftover) -> FreeRect {
    FreeRect { x: 0, y: 0, width: p.width_mm, height: p.height_mm }
}

/// A cut that found no place joins the unplaced ones: no free rectangle of
/// any plank took it.
proof fn lemma_unplace_keeps_wf(
    op: Seq<OpenedView>,
    fr: Seq<Seq<FreeRect>>,
    un: Seq<usize>,
    inv: Seq<Leftover>,
    cuts: Seq<CutRequest>,
    kerf: int,
    o: usize,
)
    requires
        state_wf(op, fr, un, inv, cuts, kerf),
        o < cuts.len(),
        !exists|p: int, r: int, rot: bool| feasible(fr, inv, cuts[o as int], p, r, rot),
    ensures
        state_wf(op, fr, un.push(o), inv, cuts, kerf),
{
    let nu = un.push(o);
    assert forall|u: int, i: int| #![trigger nu[u], inv[i]]
        0 <= u < nu.len() && 0 <= i < inv.len() && !is_opened(op, i) && same_stock(inv[i], cuts[nu[u] as int])
        implies !fits_plank(inv[i], cuts[nu[u] as int]) by {
        if u < un.len() {
            assert(nu[u] == un[u]);
        } else {
            assert(fr[i] == seq![full_rect(inv[i])]);
            assert(!feasible(fr, inv, cuts[o as int], i, 0, false));
            assert(!feasible(fr, inv, cuts[o as int], i, 0, true));
        }
    }
    assert forall|u: int| 0 <= u < nu.len() implies (#[trigger] nu[u]) < cuts.len() by {
        if u < un.len() {
            assert(nu[u] == un[u]);
        }
    }
}

fn copy_indices(v: &Vec<usize>) -> (r: Vec<usize>)
    ensures
        r@ == v@,
{
    let mut r: Vec<usize> = Vec::new();
    let mut i: usize = 0;
    while i < v.len()
        invariant
            i <= v.len(),
            r@ == v@.subrange(0, i as int),
        decreases v.len() - i,
    {
        r.push(v[i]);
        i += 1;
        assert(r@ =~= v@.subrange(0, i as int));
    }
    assert(r@ =~= v@);
    r
}

impl OptimizationState {
    /// The starting candidate: nothing opened, each plank one free rectangle.
    fn new(inv: &Vec<Leftover>) -> (st: OptimizationState)
        requires
            inventory_ok(inv@),
        ensures
            st.opened@.len() == 0,
            st.unplaced@.len() == 0,
            forall|cuts: Seq<CutRequest>, kerf: int| kerf >= 0 ==> #[trigger] st.wf(inv@, cuts, kerf),
    {
        let mut free_rects: Vec<Vec<FreeRect>> = Vec::new();
        let mut i: usize = 0;
        while i < inv.len()
            invariant
                i <= inv.len(),
                free_rects@.len() == i,
                forall|t: int| 0 <= t < i ==> (#[trigger] free_rects@[t])@ == seq![
                    FreeRect { x: 0, y: 0, width: inv@[t].width_mm, height: inv@[t].height_mm },
                ],
            decreases inv.len() - i,
        {
            let plank = &inv[i];
            let mut rects: Vec<FreeRect> = Vec::new();
            rects.push(FreeRect { x: 0, y: 0, width: plank.width_mm, height: plank.height_mm });
            free_rects.push(rects);
            i += 1;
        }
        let st = OptimizationState { opened: Vec::new(), free_rects, unplaced: Vec::new() };
        assert forall|cuts: Seq<CutRequest>, kerf: int| kerf >= 0 implies #[trigger] st.wf(inv@, cuts, kerf) by {
            let fr = st.free_view();
            assert forall|i: int| 0 <= i < inv@.len() && !is_opened(st.opened_view(), i)
                implies plank_layout_ok(Seq::<Placement>::empty(), #[trigger] fr[i], inv@[i], kerf) by {
                let f = FreeRect { x: 0, y: 0, width: inv@[i].width_mm, height: inv@[i].height_mm };
                assert(plank_ok(inv@[i]));
                assert(fr[i] == seq![f]);
                reveal_with_fuel(sum_free_area, 2);
                reveal_with_fuel(sum_free_grown_area, 2);
                assert(seq![f].drop_last() =~= Seq::<FreeRect>::empty());
            }
            assert forall|i: int| 0 <= i < inv@.len() && !is_opened(st.opened_view(), i) implies #[trigger] fr[i] == seq![full_rect(inv@[i])] by {
                assert(fr[i] == seq![FreeRect { x: 0, y: 0, width: inv@[i].width_mm, height: inv@[i].height_mm }]);
            }
        }
        st
    }
}

pub open spec fn fits_in(f: FreeRect, w: i64, h: i64) -> bool {
    w <= f.width && h <= f.height
}

/// The layout of plank `p` in a sound candidate: its cuts, if it was opened.
pub open spec fn cuts_on(op: Seq<OpenedView>, found: int, p: int) -> Seq<Placement> {
    if 0 <= found < op.len() && op[found].0 == p {
        op[found].1
    } else {
        Seq::<Placement>::empty()
    }
}

/// The number of cuts on the opened planks.
pub open spec fn placed_count(op: Seq<OpenedView>) -> int
    decreases op.len(),
{
    if op.len() == 0 {
        0
    } else {
        placed_count(op.drop_last()) + op.last().1.len()
    }
}

proof fn lemma_placed_count_update(op: Seq<OpenedView>, j: int, e: OpenedView)
    requires
        0 <= j < op.len(),
    ensures
        placed_count(op.update(j, e)) == placed_count(op) - op[j].1.len() + e.1.len(),
    decreases op.len(),
{
    let n = op.update(j, e);
    if j == op.len() - 1 {
        assert(n.drop_last() =~= op.drop_last());
    } else {
        lemma_placed_count_update(op.drop_last(), j, e);
        assert(n.drop_last() =~= op.drop_last().update(j, e));
    }
}

/// The request indices of a plank's cuts, with multiplicity.
pub open spec fn indices_of(cs: Seq<Placement>) -> Multiset<usize> {
    cs.map_values(|c: Placement| c.original_index).to_multiset()
}

/// The request indices of the cuts on the opened planks, with multiplicity.
pub open spec fn placed_indices(op: Seq<OpenedView>) -> Multiset<usize>
    decreases op.len(),
{
    if op.len() == 0 {
        Multiset::empty()
    } else {
        placed_indices(op.drop_last()).add(indices_of(op.last().1))
    }
}

proof fn lemma_indices_push(cs: Seq<Placement>, c: Placement)
    ensures
        indices_of(cs.push(c)) =~= indices_of(cs).insert(c.original_index),
{
    let f = |x: Placement| x.original_index;
    assert(cs.push(c).map_values(f) =~= cs.map_values(f).push(c.original_index));
    vstd::seq_lib::to_multiset_build(cs.map_values(f), c.original_index);
}

proof fn lemma_placed_indices_update(op: Seq<OpenedView>, j: int, e: OpenedView, x: usize)
    requires
        0 <= j < op.len(),
        indices_of(e.1) =~= indices_of(op[j].1).insert(x),
    ensures
        placed_indices(op.update(j, e)) =~= placed_indices(op).insert(x),
    decreases op.len(),
{
    broadcast use vstd::multiset::group_multiset_axioms;
    let n = op.update(j, e);
    if j == op.len() - 1 {
        assert(n.drop_last() =~= op.drop_last());
    } else {
        lemma_placed_indices_update(op.drop_last(), j, e, x);
        assert(n.drop_last() =~= op.drop_last().update(j, e));
    }
}

/// Placing `c` at the origin of free rectangle `r` of plank `p` keeps a
/// candidate sound; `found` is the position of `p` among the opened planks,
/// or `op.len()` when it was not opened yet.
proof fn lemma_apply_keeps_wf(
    op: Seq<OpenedView>,
    fr: Seq<Seq<FreeRect>>,
    un: Seq<usize>,
    inv: Seq<Leftover>,
    cuts: Seq<CutRequest>,
    kerf: i64,
    p: int,
    r: int,
    c: Placement,
    found: int,
    nop: Seq<OpenedView>,
    nfr: Seq<Seq<FreeRect>>,
)
    requires
        state_wf(op, fr, un, inv, cuts, kerf as int),
        kerf >= 0,
        0 <= p < inv.len(),
        p <= usize::MAX,
        0 <= r < fr[p].len(),
        c.x == fr[p][r].x,
        c.y == fr[p][r].y,
        split_bounded(fr[p][r], c.width, c.height, kerf),
        placement_matches(c, cuts),
        same_stock(inv[p], cuts[c.original_index as int]),
        nfr == fr.update(p, fr[p].remove(r) + split_parts(fr[p][r], c.width, c.height, kerf)),
        0 <= found <= op.len(),
        found < op.len() ==> op[found].0 == p,
        found == op.len() ==> !is_opened(op, p),
        found < op.len() ==> nop == op.update(
            found,
            (op[found].0, op[found].1.push(c), (op[found].2 + cut_charge(c.width as int, c.height as int, kerf as int)) as i64),
        ),
        found == op.len() ==> nop == op.push(
            (p as usize, seq![c], cut_charge(c.width as int, c.height as int, kerf as int) as i64),
        ),
        sum_cut_charge(cuts_on(op, found, p).push(c), kerf as int) <= i64::MAX,
    ensures
        state_wf(nop, nfr, un, inv, cuts, kerf as int),
        layout_ok(cuts_on(op, found, p).push(c), nfr[p], inv[p].width_mm as int, inv[p].height_mm as int, kerf as int),
{
    let k = kerf as int;
    let cs = cuts_on(op, found, p);
    if found < op.len() {
    } else {
        assert(cs =~= Seq::<Placement>::empty());
    }
    assert(plank_layout_ok(cs, fr[p], inv[p], k));
    lemma_place_keeps_layout(cs, fr[p], inv[p].width_mm as int, inv[p].height_mm as int, kerf, r, c);
    assert(cs.push(c).drop_last() =~= cs);
    assert forall|j: int| 0 <= j < nop.len() implies
        plank_layout_ok((#[trigger] nop[j]).1, nfr[nop[j].0 as int], inv[nop[j].0 as int], k) by {
        if j == found {
            assert(nop[j].0 as int == p);
            if found == op.len() {
                assert(nop[j].1 =~= cs.push(c));
            }
            assert(nop[j].1 == cs.push(c));
        } else {
            assert(nop[j] == op[j]);
            assert(op[j].0 != p);
        }
    }
    assert forall|i: int, j: int| 0 <= i < nop.len() && 0 <= j < nop.len() && i != j
        implies (#[trigger] nop[i]).0 != (#[trigger] nop[j]).0 by {
        if found == op.len() {
            if i == found {
                assert(nop[j] == op[j]);
            } else if j == found {
                assert(nop[i] == op[i]);
            }
        } else {
            assert(nop[i].0 == op[i].0);
            assert(nop[j].0 == op[j].0);
            assert(op[i].0 != op[j].0);
        }
    }
    assert forall|j: int, t: int| 0 <= j < nop.len() && 0 <= t < nop[j].1.len() implies {
        &&& placement_matches(#[trigger] nop[j].1[t], cuts)
        &&& same_stock(inv[nop[j].0 as int], cuts[nop[j].1[t].original_index as int])
    } by {
        if j == found {
            if t < cs.len() {
                assert(nop[j].1[t] == op[j].1[t]);
            }
        } else {
            assert(nop[j] == op[j]);
        }
    }
    assert forall|i: int| 0 <= i < inv.len() && !is_opened(nop, i)
        implies plank_layout_ok(Seq::<Placement>::empty(), #[trigger] nfr[i], inv[i], k) by {
        if i == p {
            assert(nop[found].0 == p);
        } else {
            if is_opened(op, i) {
                let j = choose|j: int| 0 <= j < op.len() && op[j].0 == i;
                assert(nop[j].0 == i);
            }
        }
    }
    assert forall|i: int| 0 <= i < inv.len() && !is_opened(nop, i) implies #[trigger] nfr[i] == seq![full_rect(inv[i])] by {
        if i == p {
            assert(nop[found].0 == p);
        } else {
            if is_opened(op, i) {
                let j = choose|j: int| 0 <= j < op.len() && op[j].0 == i;
                assert(nop[j].0 == i);
            }
        }
    }
    assert forall|j: int| 0 <= j < nop.len() implies (#[trigger] nop[j]).1[0].x == 0 && nop[j].1[0].y == 0 by {
        if j == found {
            if found < op.len() {
                assert(nop[j].1[0] == op[j].1[0]);
            } else {
                assert(fr[p] == seq![full_rect(inv[p])]);
                assert(r == 0);
                assert(nop[j].1[0] == c);
            }
        } else {
            assert(nop[j] == op[j]);
        }
    }
    assert forall|u: int, i: int| #![trigger un[u], inv[i]]
        0 <= u < un.len() && 0 <= i < inv.len() && !is_opened(nop, i) && same_stock(inv[i], cuts[un[u] as int])
        implies !fits_plank(inv[i], cuts[un[u] as int]) by {
        if is_opened(op, i) {
            let j = choose|j: int| 0 <= j < op.len() && op[j].0 == i;
            assert(nop[j].0 == i);
        }
    }
    assert forall|j: int| 0 <= j < nop.len() implies (#[trigger] nop[j]).2 == sum_cut_charge(nop[j].1, k) by {
        if j == found {
            lemma_layout_charge_bounded(cs.push(c), nfr[p], inv[p], k);
            assert(sum_cut_charge(cs.push(c), k) == sum_cut_charge(cs, k) + cut_charge(c.width as int, c.height as int, k));
            if found < op.len() {
                assert(op[found].2 == sum_cut_charge(cs, k));
            } else {
                assert(sum_cut_charge(cs, k) == 0);
                assert(nop[j].1 =~= cs.push(c));
            }
        } else {
            assert(nop[j] == op[j]);
        }
    }
}

/// `rects` without rectangle `r`, followed by the useful remainders of `r`
/// after a `w × h` cut at its origin.
fn remove_and_split(rects: &Vec<FreeRect>, r: usize, w: i64, h: i64, kerf: i64) -> (v: Vec<FreeRect>)
    requires
        r < rects@.len(),
        split_bounded(rects@[r as int], w, h, kerf),
    ensures
        v@ == rects@.remove(r as int) + split_parts(rects@[r as int], w, h, kerf),
{
    let mut v: Vec<FreeRect> = Vec::new();
    let mut i: usize = 0;
    while i < rects.len()
        invariant
            r < rects@.len(),
            i <= rects@.len(),
            v@ == (if i <= r { rects@.subrange(0, i as int) } else { rects@.subrange(0, i as int).remove(r as int) }),
        decreases rects.len() - i,
    {
        if i != r {
            v.push(rects[i]);
        }
        i += 1;
        if i <= r {
            assert(v@ =~= rects@.subrange(0, i as int));
        } else {
            assert(v@ =~= rects@.subrange(0, i as int).remove(r as int));
        }
    }
    assert(rects@.subrange(0, i as int) =~= rects@);
    let parts = split_free_rect(rects[r], w, h, kerf);
    let ghost base = v@;
    let mut j: usize = 0;
    while j < parts.len()
        invariant
            j <= parts@.len(),
            v@ == base + parts@.subrange(0, j as int),
        decreases parts.len() - j,
    {
        v.push(parts[j]);
        j += 1;
        assert(v@ =~= base + parts@.subrange(0, j as int));
    }
    assert(parts@.subrange(0, j as int) =~= parts@);
    v
}

/// A copy of `st` with a cut of request `o` placed, rotated or not, at the
/// origin of free rectangle `r` of plank `p`; the rectangle is split and
/// the plank is opened if it was not.
fn apply_cut(
    st: &OptimizationState,
    inv: &Vec<Leftover>,
    cuts: &Vec<CutRequest>,
    kerf: i64,
    p: usize,
    r: usize,
    rotated: bool,
    o: usize,
) -> (ns: OptimizationState)
    requires
        st.wf(inv@, cuts@, kerf as int),
        inventory_ok(inv@),
        cut_list_ok(cuts@),
        kerf_ok(kerf),
        p < inv@.len(),
        r < st.free_view()[p as int].len(),
        o < cuts@.len(),
        same_stock(inv@[p as int], cuts@[o as int]),
        fits_in(
            st.free_view()[p as int][r as int],
            if rotated { cuts@[o as int].height_mm } else { cuts@[o as int].width_mm },
            if rotated { cuts@[o as int].width_mm } else { cuts@[o as int].height_mm },
        ),
    ensures
        ns.wf(inv@, cuts@, kerf as int),
        ns.unplaced@ == st.unplaced@,
        ns.opened@.len() <= st.opened@.len() + 1,
        placed_count(ns.opened_view()) == placed_count(st.opened_view()) + 1,
        placed_indices(ns.opened_view()) =~= placed_indices(st.opened_view()).insert(o),
        ns.opened_view() == opened_after(
            st.opened_view(),
            p as int,
            placement_at(st.free_view()[p as int][r as int], o, rotated, cuts@[o as int]),
            cut_charge(oriented_width(rotated, cuts@[o as int]) as int, oriented_height(rotated, cuts@[o as int]) as int, kerf as int),
        ),
        ns.free_view() == st.free_view().update(
            p as int,
            st.free_view()[p as int].remove(r as int) + split_parts(
                st.free_view()[p as int][r as int],
                oriented_width(rotated, cuts@[o as int]),
                oriented_height(rotated, cuts@[o as int]),
                kerf,
            ),
        ),
{
    let ghost op = st.opened_view();
    let ghost fr = st.free_view();
    let cut = &cuts[o];
    let w = if rotated { cut.height_mm } else { cut.width_mm };
    let h = if rotated { cut.width_mm } else { cut.height_mm };
    assert(cut_request_ok(cuts@[o as int]));
    let rect = st.free_rects[p][r];
    let c = Placement { original_index: o, x: rect.x, y: rect.y, width: w, height: h, rotated };

    let mut found: usize = st.opened.len();
    let mut j: usize = 0;
    while j < st.opened.len()
        invariant
            j <= st.opened@.len(),
            op == st.opened_view(),
            found == st.opened@.len() || (found < j && op[found as int].0 == p),
            found == st.opened@.len() ==> forall|t: int| 0 <= t < j ==> (#[trigger] op[t]).0 != p,
        decreases st.opened.len() - j,
    {
        if found == st.opened.len() && st.opened[j].index == p {
            found = j;
        }
        j += 1;
    }
    let ghost cs = cuts_on(op, found as int, p as int);
    proof {
        if found == st.opened.len() {
            assert(cs =~= Seq::<Placement>::empty());
        }
        assert(plank_layout_ok(cs, fr[p as int], inv@[p as int], kerf as int));
        assert(free_on_plank(fr[p as int][r as int], inv@[p as int].width_mm as int, inv@[p as int].height_mm as int));
        assert(plank_ok(inv@[p as int]));
        lemma_place_keeps_layout(cs, fr[p as int], inv@[p as int].width_mm as int, inv@[p as int].height_mm as int, kerf, r as int, c);
        lemma_layout_charge_bounded(
            cs.push(c),
            fr[p as int].remove(r as int) + split_parts(fr[p as int][r as int], w, h, kerf),
            inv@[p as int],
            kerf as int,
        );
        assert(cs.push(c).drop_last() =~= cs);
        assert((inv@[p as int].width_mm + kerf) * (inv@[p as int].height_mm + kerf) <= 20000 * 20000) by (nonlinear_arith)
            requires
                0 < inv@[p as int].width_mm <= 10000,
                0 < inv@[p as int].height_mm <= 10000,
                0 <= kerf <= 10000,
        ;
        lemma_layout_charge_bounded(cs, fr[p as int], inv@[p as int], kerf as int);
        let sum_new = sum_cut_charge(cs.push(c), kerf as int);
        assert(sum_new == sum_cut_charge(cs, kerf as int) + cut_charge(w as int, h as int, kerf as int));
        assert(sum_new <= 400_000_000);
        if found < st.opened@.len() {
            assert(op[found as int].2 == sum_cut_charge(cs, kerf as int));
        }
        assert(0 <= w * h <= 10000 * 10000) by (nonlinear_arith)
            requires
                0 < w <= 10000,
                0 < h <= 10000,
        ;
        assert(0 <= (w + h) * kerf <= 20000 * 10000) by (nonlinear_arith)
            requires
                0 < w + h <= 20000,
                0 <= kerf <= 10000,
        ;
    }
    let charge = w * h + (w + h) * kerf;

    let mut nfr: Vec<Vec<FreeRect>> = Vec::new();
    let mut i: usize = 0;
    while i < st.free_rects.len()
        invariant
            i <= st.free_rects@.len(),
            fr == st.free_view(),
            p < fr.len(),
            r < fr[p as int].len(),
            split_bounded(fr[p as int][r as int], w, h, kerf),
            nfr@.len() == i,
            forall|t: int| 0 <= t < i ==> (#[trigger] nfr@[t])@ == (if t == p {
                fr[p as int].remove(r as int) + split_parts(fr[p as int][r as int], w, h, kerf)
            } else {
                fr[t]
            }),
        decreases st.free_rects.len() - i,
    {
        if i == p {
            nfr.push(remove_and_split(&st.free_rects[i], r, w, h, kerf));
        } else {
            nfr.push(copy_rects(&st.free_rects[i]));
        }
        i += 1;
    }

    let mut nop: Vec<OpenedPlank> = Vec::new();
    let mut j: usize = 0;
    while j < st.opened.len()
        invariant
            j <= st.opened@.len(),
            op == st.opened_view(),
            found == st.opened@.len() || (found < st.opened@.len() && op[found as int].0 == p),
            found < st.opened@.len() ==> op[found as int].2 + charge <= i64::MAX,
            found < st.opened@.len() ==> op[found as int].2 >= 0,
            charge >= 0,
            charge == cut_charge(w as int, h as int, kerf as int),
            nop@.len() == j,
            forall|t: int| 0 <= t < j ==> (#[trigger] nop@[t])@ == (if t == found {
                (op[t].0, op[t].1.push(c), (op[t].2 + charge) as i64)
            } else {
                op[t]
            }),
        decreases st.opened.len() - j,
    {
        let e = &st.opened[j];
        assert(e@ == op[j as int]);
        let mut cs_copy = copy_placements(&e.cuts);
        if j == found {
            assert(e.used_area == op[found as int].2);
            cs_copy.push(c);
            nop.push(OpenedPlank { index: e.index, cuts: cs_copy, used_area: e.used_area + charge });
        } else {
            nop.push(OpenedPlank { index: e.index, cuts: cs_copy, used_area: e.used_area });
        }
        j += 1;
    }
    if found == st.opened.len() {
        let mut cs_new: Vec<Placement> = Vec::new();
        cs_new.push(c);
        nop.push(OpenedPlank { index: p, cuts: cs_new, used_area: charge });
    }
    let ns = OptimizationState { opened: nop, free_rects: nfr, unplaced: copy_indices(&st.unplaced) };
    proof {
        let nfv = ns.free_view();
        assert(nfv =~= fr.update(p as int, fr[p as int].remove(r as int) + split_parts(fr[p as int][r as int], w, h, kerf)));
        let nov = ns.opened_view();
        if found < op.len() {
            assert(nov =~= op.update(found as int, (op[found as int].0, op[found as int].1.push(c), (op[found as int].2 + charge) as i64)));
            lemma_placed_count_update(op, found as int, (op[found as int].0, op[found as int].1.push(c), (op[found as int].2 + charge) as i64));
            lemma_indices_push(op[found as int].1, c);
            lemma_placed_indices_update(op, found as int, (op[found as int].0, op[found as int].1.push(c), (op[found as int].2 + charge) as i64), o);
        } else {
            assert(!is_opened(op, p as int));
            assert(nov =~= op.push((p, seq![c], charge as i64)));
            assert(nov.drop_last() =~= op);
            lemma_indices_push(Seq::<Placement>::empty(), c);
            assert(Seq::<Placement>::empty().push(c) =~= seq![c]);
            lemma_empty_to_multiset(Seq::<Placement>::empty().map_values(|x: Placement| x.original_index));
            broadcast use vstd::multiset::group_multiset_axioms;
            assert(placed_indices(nov) =~= placed_indices(op).add(indices_of(seq![c])));
        }
        lemma_apply_keeps_wf(op, fr, st.unplaced@, inv@, cuts@, kerf, p as int, r as int, c, found as int, nov, nfv);
        if found < op.len() {
            assert(is_opened(op, p as int));
            let j = choose|j: int| 0 <= j < op.len() && op[j].0 == p as int;
            assert(j == found as int);
        }
    }
    ns
}

/// The cut of request `o`, rotated or not, at the origin of `f`.
pub open spec fn placement_at(f: FreeRect, o: usize, rotated: bool, cut: CutRequest) -> Placement {
    Placement {
        original_index: o,
        x: f.x,
        y: f.y,
        width: oriented_width(rotated, cut),
        height: oriented_height(rotated, cut),
        rotated,
    }
}

/// The opened planks after cut `c` goes on plank `p` with `charge`: appended
/// to that plank's cuts when it was opened, else a new plank opened last.
pub open spec fn opened_after(op: Seq<OpenedView>, p: int, c: Placement, charge: int) -> Seq<OpenedView> {
    if is_opened(op, p) {
        let j = choose|j: int| 0 <= j < op.len() && op[j].0 == p;
        op.update(j, (op[j].0, op[j].1.push(c), (op[j].2 + charge) as i64))
    } else {
        op.push((p as usize, seq![c], charge as i64))
    }
}

/// Ranks planks for a new cut: opened planks first, then the smaller plank.
pub const UNOPENED_PENALTY: i64 = 1_000_000_000;

pub open spec fn oriented_width(rotated: bool, cut: CutRequest) -> i64 {
    if rotated { cut.height_mm } else { cut.width_mm }
}

pub open spec fn oriented_height(rotated: bool, cut: CutRequest) -> i64 {
    if rotated { cut.width_mm } else { cut.height_mm }
}

/// Rectangle `r` of plank `p` can take `cut` in the given orientation.
pub open spec fn feasible(
    fr: Seq<Seq<FreeRect>>,
    inv: Seq<Leftover>,
    cut: CutRequest,
    p: int,
    r: int,
    rotated: bool,
) -> bool {
    &&& 0 <= p < inv.len()
    &&& p < fr.len()
    &&& same_stock(inv[p], cut)
    &&& 0 <= r < fr[p].len()
    &&& fits_in(fr[p][r], oriented_width(rotated, cut), oriented_height(rotated, cut))
}

pub open spec fn plank_rank(op: Seq<OpenedView>, inv: Seq<Leftover>, p: int) -> int {
    (if is_opened(op, p) { 0int } else { UNOPENED_PENALTY as int }) + inv[p].width_mm * inv[p].height_mm
}

/// A way to place the next cut: plank, free rectangle, orientation, rank.
#[derive(Clone, Copy)]
pub struct PlacementOption {
    pub plank: usize,
    pub rect: usize,
    pub rotated: bool,
    pub rank: i64,
}

/// Which planks of the inventory a candidate has opened.
fn opened_flags(st: &OptimizationState, n: usize) -> (flags: Vec<bool>)
    requires
        forall|j: int| 0 <= j < st.opened@.len() ==> (#[trigger] st.opened@[j]).index < n,
    ensures
        flags@.len() == n,
        forall|i: int| 0 <= i < n ==> flags@[i] == is_opened(st.opened_view(), i),
{
    let mut flags: Vec<bool> = Vec::new();
    let mut i: usize = 0;
    while i < n
        invariant
            i <= n,
            flags@.len() == i,
            forall|t: int| 0 <= t < i ==> !flags@[t],
        decreases n - i,
    {
        flags.push(false);
        i += 1;
    }
    let ghost op = st.opened_view();
    let mut j: usize = 0;
    while j < st.opened.len()
        invariant
            j <= st.opened@.len(),
            op == st.opened_view(),
            flags@.len() == n,
            forall|t: int| 0 <= t < st.opened@.len() ==> (#[trigger] st.opened@[t]).index < n,
            forall|t: int| 0 <= t < n ==> flags@[t] == exists|u: int| 0 <= u < j && op[u].0 == t,
        decreases st.opened.len() - j,
    {
        let idx = st.opened[j].index;
        assert(op[j as int].0 == idx);
        flags.set(idx, true);
        j += 1;
        assert forall|t: int| 0 <= t < n implies flags@[t] == exists|u: int| 0 <= u < j && op[u].0 == t by {
            if t == idx {
                assert(op[j - 1].0 == t);
            } else {
                if exists|u: int| 0 <= u < j && op[u].0 == t {
                    let u = choose|u: int| 0 <= u < j && op[u].0 == t;
                    assert(u != j - 1);
                }
            }
        }
    }
    flags
}

/// Visited before rectangle `r` of plank `p` in inventory order.
pub open spec fn seen_before(pk: int, rk: int, p: int, r: int) -> bool {
    pk < p || (pk == p && rk < r)
}

/// Invariant of the best options found so far.
pub open spec fn options_ok(
    best: Seq<PlacementOption>,
    fr: Seq<Seq<FreeRect>>,
    op: Seq<OpenedView>,
    inv: Seq<Leftover>,
    cut: CutRequest,
) -> bool {
    &&& best.len() <= OPTIONS_PER_STATE
    &&& forall|t: int| 0 <= t < best.len() ==> {
        &&& feasible(fr, inv, cut, (#[trigger] best[t]).plank as int, best[t].rect as int, best[t].rotated)
        &&& best[t].rank == plank_rank(op, inv, best[t].plank as int)
    }
    &&& forall|a: int, b: int| 0 <= a < b < best.len() ==> ranked_before(#[trigger] best[a], #[trigger] best[b])
}

proof fn lemma_offer_keeps_options(
    before: Seq<PlacementOption>,
    after: Seq<PlacementOption>,
    o: PlacementOption,
    fr: Seq<Seq<FreeRect>>,
    op: Seq<OpenedView>,
    inv: Seq<Leftover>,
    cut: CutRequest,
)
    requires
        options_ok(before, fr, op, inv, cut),
        feasible(fr, inv, cut, o.plank as int, o.rect as int, o.rotated),
        o.rank == plank_rank(op, inv, o.plank as int),
        after.len() <= OPTIONS_PER_STATE,
        forall|a: int, b: int| 0 <= a < b < after.len() ==> ranked_before(#[trigger] after[a], #[trigger] after[b]),
        forall|t: int| 0 <= t < after.len() ==> (#[trigger] after[t]) == o || before.contains(after[t]),
    ensures
        options_ok(after, fr, op, inv, cut),
{
    assert forall|t: int| 0 <= t < after.len() implies {
        &&& feasible(fr, inv, cut, (#[trigger] after[t]).plank as int, after[t].rect as int, after[t].rotated)
        &&& after[t].rank == plank_rank(op, inv, after[t].plank as int)
    } by {
        if after[t] != o {
            let u = choose|u: int| 0 <= u < before.len() && before[u] == after[t];
            assert(feasible(fr, inv, cut, before[u].plank as int, before[u].rect as int, before[u].rotated));
        }
    }
}

/// Visiting order of options: plank, then free rectangle, then the cut as
/// requested before the rotated one.
pub open spec fn visited_before(ap: int, ar: int, arot: bool, bp: int, br: int, brot: bool) -> bool {
    ap < bp || (ap == bp && (ar < br || (ar == br && !arot && brot)))
}

/// The stable rank order of options: smaller rank first, visiting order
/// among equal ranks.
pub open spec fn ranked_before(a: PlacementOption, b: PlacementOption) -> bool {
    a.rank < b.rank || (a.rank == b.rank
        && visited_before(a.plank as int, a.rect as int, a.rotated, b.plank as int, b.rect as int, b.rotated))
}

/// `best` holds `x`, or is full with its last option ranked before `x`.
pub open spec fn kept_or_beaten(best: Seq<PlacementOption>, x: PlacementOption) -> bool {
    best.contains(x) || (best.len() == OPTIONS_PER_STATE && ranked_before(best[OPTIONS_PER_STATE - 1], x))
}

/// Adds `o`, visited after every option held, to the options kept in stable
/// rank order, keeping the first `OPTIONS_PER_STATE`.
fn offer_option(best: &mut Vec<PlacementOption>, o: PlacementOption)
    requires
        old(best)@.len() <= OPTIONS_PER_STATE,
        forall|a: int, b: int| 0 <= a < b < old(best)@.len() ==> ranked_before(#[trigger] old(best)@[a], #[trigger] old(best)@[b]),
        forall|t: int| 0 <= t < old(best)@.len() ==> visited_before(
            (#[trigger] old(best)@[t]).plank as int, old(best)@[t].rect as int, old(best)@[t].rotated,
            o.plank as int, o.rect as int, o.rotated,
        ),
    ensures
        final(best)@.len() <= OPTIONS_PER_STATE,
        final(best)@.len() > 0,
        forall|a: int, b: int| 0 <= a < b < final(best)@.len() ==> ranked_before(#[trigger] final(best)@[a], #[trigger] final(best)@[b]),
        forall|t: int| 0 <= t < final(best)@.len() ==> (#[trigger] final(best)@[t]) == o || old(best)@.contains(final(best)@[t]),
        kept_or_beaten(final(best)@, o),
        forall|x: PlacementOption| kept_or_beaten(old(best)@, x) ==> #[trigger] kept_or_beaten(final(best)@, x),
{
    let ghost before = best@;
    let mut pos: usize = 0;
    while pos < best.len() && best[pos].rank <= o.rank
        invariant
            pos <= best@.len(),
            best@ == before,
            forall|t: int| 0 <= t < pos ==> (#[trigger] best@[t]).rank <= o.rank,
        decreases best.len() - pos,
    {
        pos += 1;
    }
    if pos < OPTIONS_PER_STATE {
        best.insert(pos, o);
        if best.len() > OPTIONS_PER_STATE {
            best.truncate(OPTIONS_PER_STATE);
        }
        let ghost ins = before.insert(pos as int, o);
        assert forall|t: int| 0 <= t < best@.len() implies best@[t] == ins[t] by {}
        assert forall|a: int, b: int| 0 <= a < b < best@.len() implies ranked_before(#[trigger] best@[a], #[trigger] best@[b]) by {
            if a < pos && b > pos {
                assert(ins[b] == before[b - 1]);
                assert(ranked_before(before[a], before[b - 1]) || a == b - 1);
            } else if a == pos && b > pos {
                assert(ins[b] == before[b - 1]);
                assert(before[pos as int].rank > o.rank);
                if pos < b - 1 {
                    assert(ranked_before(before[pos as int], before[b - 1]));
                }
            } else if a > pos {
                assert(ins[a] == before[a - 1]);
                assert(ins[b] == before[b - 1]);
            } else if b < pos {
                assert(ins[a] == before[a] && ins[b] == before[b]);
            } else {
                assert(ins[a] == before[a]);
            }
        }
        assert forall|t: int| 0 <= t < best@.len() implies (#[trigger] best@[t]) == o || before.contains(best@[t]) by {
            if t < pos {
                assert(before[t] == ins[t]);
            } else if t > pos {
                assert(before[t - 1] == ins[t]);
            }
        }
        assert(best@[pos as int] == o);
        assert forall|x: PlacementOption| kept_or_beaten(before, x) implies #[trigger] kept_or_beaten(best@, x) by {
            if before.contains(x) {
                let u = choose|u: int| 0 <= u < before.len() && before[u] == x;
                if u < pos {
                    assert(best@[u] == x);
                } else if u + 1 < best@.len() {
                    assert(best@[u + 1] == x);
                } else {
                    assert(before.len() == OPTIONS_PER_STATE && u == OPTIONS_PER_STATE - 1);
                    let l = OPTIONS_PER_STATE - 1;
                    if pos == l {
                        assert(best@[l as int] == o);
                        assert(before[pos as int].rank > o.rank);
                    } else {
                        assert(best@[l as int] == before[l - 1]);
                        assert(ranked_before(before[l - 1], before[l as int]));
                    }
                }
            } else {
                let l = OPTIONS_PER_STATE - 1;
                assert(before.len() == OPTIONS_PER_STATE);
                assert(ranked_before(before[l as int], x));
                if pos == l {
                    assert(best@[l as int] == o);
                    assert(before[pos as int].rank > o.rank);
                } else {
                    assert(best@[l as int] == before[l - 1]);
                    assert(ranked_before(before[l - 1], before[l as int]));
                }
            }
        }
    } else {
        assert(best@.len() == OPTIONS_PER_STATE);
        let l = OPTIONS_PER_STATE - 1;
        assert(best@[l as int].rank <= o.rank);
        assert(ranked_before(best@[l as int], o));
    }
}

/// Every way to place `cut` on the free rectangles of planks of its stock,
/// ranked opened planks first, then by plank area, and in visiting order
/// among equals; the first `OPTIONS_PER_STATE` of them.
fn find_all_placements(
    st: &OptimizationState,
    inv: &Vec<Leftover>,
    keys: &Vec<String>,
    cut: &CutRequest,
    cut_key: &String,
) -> (best: Vec<PlacementOption>)
    requires
        st.free_rects@.len() == inv@.len(),
        forall|j: int| 0 <= j < st.opened@.len() ==> (#[trigger] st.opened@[j]).index < inv@.len(),
        inventory_ok(inv@),
        keys@.len() == inv@.len(),
        forall|i: int| 0 <= i < inv@.len() ==> (#[trigger] keys@[i])@ == lower_of(inv@[i].material@),
        cut_key@ == lower_of(cut.material@),
    ensures
        options_ok(best@, st.free_view(), st.opened_view(), inv@, *cut),
        best@.len() == 0 <==> !exists|p: int, r: int, rot: bool| feasible(st.free_view(), inv@, *cut, p, r, rot),
        forall|p: int, r: int, rot: bool| #[trigger] feasible(st.free_view(), inv@, *cut, p, r, rot)
            ==> kept_or_beaten(best@, option_of(st.opened_view(), inv@, p, r, rot)),
{
    let ghost fr = st.free_view();
    let ghost op = st.opened_view();
    let flags = opened_flags(st, inv.len());
    let mut best: Vec<PlacementOption> = Vec::new();
    let mut p: usize = 0;
    while p < inv.len()
        invariant
            p <= inv@.len(),
            fr == st.free_view(),
            op == st.opened_view(),
            fr.len() == inv@.len(),
            inventory_ok(inv@),
            flags@.len() == inv@.len(),
            forall|i: int| 0 <= i < inv@.len() ==> flags@[i] == is_opened(op, i),
            keys@.len() == inv@.len(),
            forall|i: int| 0 <= i < inv@.len() ==> (#[trigger] keys@[i])@ == lower_of(inv@[i].material@),
            cut_key@ == lower_of(cut.material@),
            options_ok(best@, fr, op, inv@, *cut),
            forall|t: int| 0 <= t < best@.len() ==> (#[trigger] best@[t]).plank < p,
            forall|pk: int, rk: int, rot: bool| pk < p && #[trigger] feasible(fr, inv@, *cut, pk, rk, rot)
                ==> kept_or_beaten(best@, option_of(op, inv@, pk, rk, rot)),
        decreases inv.len() - p,
    {
        let plank = &inv[p];
        if keys[p] == *cut_key && plank.thickness_mm == cut.thickness_mm {
            assert(plank_ok(inv@[p as int]));
            assert(0 < plank.width_mm * plank.height_mm <= 10000 * 10000) by (nonlinear_arith)
                requires
                    0 < plank.width_mm <= 10000,
                    0 < plank.height_mm <= 10000,
            ;
            let rank: i64 = (if flags[p] { 0 } else { UNOPENED_PENALTY }) + plank.width_mm * plank.height_mm;
            let rects = &st.free_rects[p];
            assert(rects@ == fr[p as int]);
            let mut r: usize = 0;
            while r < rects.len()
                invariant
                    p < inv@.len(),
                    fr.len() == inv@.len(),
                    r <= rects@.len(),
                    rects@ == fr[p as int],
                    same_stock(inv@[p as int], *cut),
                    rank == plank_rank(op, inv@, p as int),
                    options_ok(best@, fr, op, inv@, *cut),
                    forall|t: int| 0 <= t < best@.len() ==> seen_before((#[trigger] best@[t]).plank as int, best@[t].rect as int, p as int, r as int),
                    forall|pk: int, rk: int, rot: bool| seen_before(pk, rk, p as int, r as int) && #[trigger] feasible(fr, inv@, *cut, pk, rk, rot)
                        ==> kept_or_beaten(best@, option_of(op, inv@, pk, rk, rot)),
                decreases rects.len() - r,
            {
                let f = rects[r];
                if f.width >= cut.width_mm && f.height >= cut.height_mm {
                    let o = PlacementOption { plank: p, rect: r, rotated: false, rank };
                    assert(o == option_of(op, inv@, p as int, r as int, false));
                    let ghost before = best@;
                    offer_option(&mut best, o);
                    proof {
                        lemma_offer_keeps_options(before, best@, o, fr, op, inv@, *cut);
                    }
                }
                assert forall|t: int| 0 <= t < best@.len() implies visited_before(
                    (#[trigger] best@[t]).plank as int, best@[t].rect as int, best@[t].rotated, p as int, r as int, true) by {
                    if best@[t].plank == p && best@[t].rect == r {
                        assert(!best@[t].rotated);
                    }
                }
                if f.width >= cut.height_mm && f.height >= cut.width_mm {
                    let o = PlacementOption { plank: p, rect: r, rotated: true, rank };
                    assert(o == option_of(op, inv@, p as int, r as int, true));
                    let ghost before = best@;
                    offer_option(&mut best, o);
                    proof {
                        lemma_offer_keeps_options(before, best@, o, fr, op, inv@, *cut);
                    }
                }
                assert forall|t: int| 0 <= t < best@.len() implies seen_before((#[trigger] best@[t]).plank as int, best@[t].rect as int, p as int, r + 1) by {
                    assert(visited_before(best@[t].plank as int, best@[t].rect as int, best@[t].rotated, p as int, r as int, true)
                        || (best@[t].plank == p && best@[t].rect == r));
                }
                r += 1;
            }
        }
        p += 1;
    }
    proof {
        if best@.len() > 0 {
            assert(feasible(fr, inv@, *cut, best@[0].plank as int, best@[0].rect as int, best@[0].rotated));
        }
    }
    best
}

/// The option of placing the cut at rectangle `r` of plank `p`.
pub open spec fn option_of(op: Seq<OpenedView>, inv: Seq<Leftover>, p: int, r: int, rot: bool) -> PlacementOption {
    PlacementOption { plank: p as usize, rect: r as usize, rotated: rot, rank: plank_rank(op, inv, p) as i64 }
}

pub proof fn lemma_empty_to_multiset<A>(s: Seq<A>)
    requires
        s.len() == 0,
    ensures
        s.to_multiset() =~= Multiset::<A>::empty(),
{
    vstd::seq_lib::to_multiset_len(s);
    vstd::multiset::lemma_multiset_empty_len(s.to_multiset());
}

/// Each request repeated `quantity` times, by request index, ordered by
/// `cut_priority` descending, requests in list order among equals.
pub(crate) fn expand_cuts(cuts: &Vec<CutRequest>) -> (order: Vec<usize>)
    requires
        cut_list_ok(cuts@),
        cuts@.len() <= MAX_CUT_LINES,
    ensures
        order@.len() == total_quantity(cuts@),
        forall|t: int| 0 <= t < order@.len() ==> (#[trigger] order@[t]) < cuts@.len(),
        forall|a: int, b: int| 0 <= a <= b < order@.len()
            ==> cut_priority(cuts@[(#[trigger] order@[a]) as int]) >= cut_priority(cuts@[(#[trigger] order@[b]) as int]),
        forall|k: int| 0 <= k < cuts@.len() ==> #[trigger] order@.to_multiset().count(k as usize) == cuts@[k].quantity,
{
    broadcast use vstd::multiset::group_multiset_axioms;
    let mut order: Vec<usize> = Vec::new();
    proof {
        lemma_empty_to_multiset(order@);
    }
    let mut ranks: Vec<i64> = Vec::new();
    let mut i: usize = 0;
    while i < cuts.len()
        invariant
            i <= cuts@.len(),
            cut_list_ok(cuts@),
            cuts@.len() <= MAX_CUT_LINES,
            order@.len() == total_quantity(cuts@.subrange(0, i as int)),
            ranks@.len() == order@.len(),
            forall|t: int| 0 <= t < order@.len() ==> (#[trigger] order@[t]) < cuts@.len(),
            forall|t: int| 0 <= t < order@.len() ==> ranks@[t] == cut_priority(cuts@[(#[trigger] order@[t]) as int]),
            forall|a: int, b: int| 0 <= a <= b < order@.len() ==> (#[trigger] ranks@[a]) >= (#[trigger] ranks@[b]),
            forall|k: int| 0 <= k < cuts@.len() ==> #[trigger] order@.to_multiset().count(k as usize) == (if k < i { cuts@[k].quantity as int } else { 0 }),
        decreases cuts.len() - i,
    {
        let c = &cuts[i];
        assert(cut_request_ok(cuts@[i as int]));
        proof {
            lemma_total_quantity_bounds(cuts@.subrange(0, i as int));
            assert(0 < c.width_mm * c.height_mm <= 10000 * 10000) by (nonlinear_arith)
                requires
                    0 < c.width_mm <= 10000,
                    0 < c.height_mm <= 10000,
            ;
        }
        let longest = if c.width_mm >= c.height_mm { c.width_mm } else { c.height_mm };
        let rank: i64 = c.width_mm * c.height_mm * 20_000 + longest;
        let mut q: i32 = 0;
        while q < c.quantity
            invariant
                0 <= q <= c.quantity,
                i < cuts@.len(),
                *c == cuts@[i as int],
                cut_request_ok(*c),
                cuts@.len() <= MAX_CUT_LINES,
                i <= total_quantity(cuts@.subrange(0, i as int)) <= i * 1000,
                rank == cut_priority(*c),
                order@.len() == total_quantity(cuts@.subrange(0, i as int)) + q,
                ranks@.len() == order@.len(),
                forall|t: int| 0 <= t < order@.len() ==> (#[trigger] order@[t]) < cuts@.len(),
                forall|t: int| 0 <= t < order@.len() ==> ranks@[t] == cut_priority(cuts@[(#[trigger] order@[t]) as int]),
                forall|a: int, b: int| 0 <= a <= b < order@.len() ==> (#[trigger] ranks@[a]) >= (#[trigger] ranks@[b]),
                forall|k: int| 0 <= k < cuts@.len() ==> #[trigger] order@.to_multiset().count(k as usize) == (if k < i { cuts@[k].quantity as int } else if k == i { q as int } else { 0 }),
            decreases c.quantity - q,
        {
            let mut pos: usize = 0;
            while pos < ranks.len() && ranks[pos] >= rank
                invariant
                    pos <= ranks@.len(),
                    forall|t: int| 0 <= t < pos ==> (#[trigger] ranks@[t]) >= rank,
                decreases ranks.len() - pos,
            {
                pos += 1;
            }
            let ghost old_ranks = ranks@;
            let ghost old_order = order@;
            ranks.insert(pos, rank);
            order.insert(pos, i);
            proof {
                vstd::seq_lib::to_multiset_insert(old_order, pos as int, i);
            }
            assert(order@.to_multiset() == old_order.to_multiset().insert(i));
            assert forall|k: int| 0 <= k < cuts@.len() implies #[trigger] order@.to_multiset().count(k as usize) == (if k < i { cuts@[k].quantity as int } else if k == i { q + 1 } else { 0 }) by {
                let m0 = old_order.to_multiset();
                assert(m0.count(k as usize) == (if k < i { cuts@[k].quantity as int } else if k == i { q as int } else { 0 }));
                if k != i {
                    assert(k as usize != i);
                }
            }
            assert forall|a: int, b: int| 0 <= a <= b < ranks@.len() implies (#[trigger] ranks@[a]) >= (#[trigger] ranks@[b]) by {
                if a < pos && b > pos {
                    assert(ranks@[b] == old_ranks[b - 1]);
                } else if a == pos && b > pos {
                    assert(ranks@[b] == old_ranks[b - 1]);
                    assert(old_ranks[pos as int] >= old_ranks[b - 1]);
                } else if a > pos {
                    assert(ranks@[a] == old_ranks[a - 1]);
                    assert(ranks@[b] == old_ranks[b - 1]);
                }
            }
            assert forall|t: int| 0 <= t < order@.len() implies ranks@[t] == cut_priority(cuts@[(#[trigger] order@[t]) as int]) by {
                if t < pos {
                    assert(order@[t] == old_order[t]);
                } else if t > pos {
                    assert(order@[t] == old_order[t - 1]);
                }
            }
            assert forall|t: int| 0 <= t < order@.len() implies (#[trigger] order@[t]) < cuts@.len() by {
                if t < pos {
                    assert(order@[t] == old_order[t]);
                } else if t > pos {
                    assert(order@[t] == old_order[t - 1]);
                }
            }
            q += 1;
        }
        assert(cuts@.subrange(0, i + 1).drop_last() =~= cuts@.subrange(0, i as int));
        i += 1;
    }
    assert(cuts@.subrange(0, i as int) =~= cuts@);
    order
}

/// A copy of `st`; with `extra`, that request index is added to the
/// unplaced cuts.
fn copy_state(st: &OptimizationState, extra: Option<usize>) -> (ns: OptimizationState)
    ensures
        ns.opened_view() == st.opened_view(),
        ns.free_view() == st.free_view(),
        ns.unplaced@ == (match extra {
            Some(o) => st.unplaced@.push(o),
            None => st.unplaced@,
        }),
{
    let mut opened: Vec<OpenedPlank> = Vec::new();
    let mut j: usize = 0;
    while j < st.opened.len()
        invariant
            j <= st.opened@.len(),
            opened@.len() == j,
            forall|t: int| 0 <= t < j ==> (#[trigger] opened@[t])@ == st.opened@[t]@,
        decreases st.opened.len() - j,
    {
        let e = &st.opened[j];
        opened.push(OpenedPlank { index: e.index, cuts: copy_placements(&e.cuts), used_area: e.used_area });
        j += 1;
    }
    let mut free_rects: Vec<Vec<FreeRect>> = Vec::new();
    let mut i: usize = 0;
    while i < st.free_rects.len()
        invariant
            i <= st.free_rects@.len(),
            free_rects@.len() == i,
            forall|t: int| 0 <= t < i ==> (#[trigger] free_rects@[t])@ == st.free_rects@[t]@,
        decreases st.free_rects.len() - i,
    {
        free_rects.push(copy_rects(&st.free_rects[i]));
        i += 1;
    }
    let mut unplaced = copy_indices(&st.unplaced);
    if let Some(o) = extra {
        unplaced.push(o);
    }
    let ns = OptimizationState { opened, free_rects, unplaced };
    assert(ns.opened_view() =~= st.opened_view());
    assert(ns.free_view() =~= st.free_view());
    ns
}

pub open spec fn plank_area(p: Leftover) -> int {
    p.width_mm * p.height_mm
}

pub open spec fn sum_used(op: Seq<OpenedView>) -> int
    decreases op.len(),
{
    if op.len() == 0 {
        0
    } else {
        sum_used(op.drop_last()) + op.last().2
    }
}

pub open spec fn sum_plank_area(op: Seq<OpenedView>, inv: Seq<Leftover>) -> int
    decreases op.len(),
{
    if op.len() == 0 {
        0
    } else {
        sum_plank_area(op.drop_last(), inv) + plank_area(inv[op.last().0 as int])
    }
}

/// The bound on the number of opened planks under which the area sums fit.
pub const MAX_OPENED: usize = 1_000_000_000;

/// The area charged and the area available over the opened planks.
fn state_areas(st: &OptimizationState, inv: &Vec<Leftover>, Ghost(cuts): Ghost<Seq<CutRequest>>, kerf: i64) -> (r: (i64, i64))
    requires
        st.wf(inv@, cuts, kerf as int),
        inventory_ok(inv@),
        kerf_ok(kerf),
        st.opened@.len() <= MAX_OPENED,
    ensures
        r.0 == sum_used(st.opened_view()),
        r.1 == sum_plank_area(st.opened_view(), inv@),
        0 <= r.0 <= st.opened@.len() * 400_000_000,
        0 <= r.1 <= st.opened@.len() * 100_000_000,
        r.1 == 0 ==> r.0 == 0,
{
    let ghost op = st.opened_view();
    let mut used: i64 = 0;
    let mut total: i64 = 0;
    let mut j: usize = 0;
    while j < st.opened.len()
        invariant
            j <= st.opened@.len(),
            st.opened@.len() <= MAX_OPENED,
            op == st.opened_view(),
            st.wf(inv@, cuts, kerf as int),
            inventory_ok(inv@),
            kerf_ok(kerf),
            used == sum_used(op.subrange(0, j as int)),
            total == sum_plank_area(op.subrange(0, j as int), inv@),
            0 <= used <= j * 400_000_000,
            0 <= total <= j * 100_000_000,
            j > 0 ==> total > 0,
            j == 0 ==> used == 0 && total == 0,
        decreases st.opened.len() - j,
    {
        let e = &st.opened[j];
        assert(op[j as int] == e@);
        assert(e.index < inv@.len());
        let plank = &inv[e.index];
        proof {
            let pl = inv@[e.index as int];
            assert(plank_ok(pl));
            lemma_layout_charge_bounded(op[j as int].1, st.free_view()[e.index as int], pl, kerf as int);
            assert((pl.width_mm + kerf) * (pl.height_mm + kerf) <= 20000 * 20000) by (nonlinear_arith)
                requires
                    0 < pl.width_mm <= 10000,
                    0 < pl.height_mm <= 10000,
                    0 <= kerf <= 10000,
            ;
            assert(0 < pl.width_mm * pl.height_mm <= 10000 * 10000) by (nonlinear_arith)
                requires
                    0 < pl.width_mm <= 10000,
                    0 < pl.height_mm <= 10000,
            ;
            assert(op.subrange(0, j + 1).drop_last() =~= op.subrange(0, j as int));
        }
        used = used + e.used_area;
        total = total + plank.width_mm * plank.height_mm;
        j += 1;
    }
    assert(op.subrange(0, j as int) =~= op);
    (used, total)
}

/// Candidate `a` ranks before `b`: fewer unplaced cuts, then a strictly
/// higher ratio of charged to available area over the opened planks (a
/// candidate with nothing opened counts as ratio zero).
pub open spec fn ranks_before(a_unplaced: int, a_used: int, a_total: int, b_unplaced: int, b_used: int, b_total: int) -> bool {
    if a_unplaced != b_unplaced {
        a_unplaced < b_unplaced
    } else if a_total == 0 {
        false
    } else if b_total == 0 {
        a_used > 0
    } else {
        a_used * b_total > b_used * a_total
    }
}

fn better_candidate(a_unplaced: usize, a_used: i64, a_total: i64, b_unplaced: usize, b_used: i64, b_total: i64) -> (r: bool)
    requires
        0 <= a_used <= 1_000_000_000_000_000_000,
        0 <= a_total <= 1_000_000_000_000_000_000,
        0 <= b_used <= 1_000_000_000_000_000_000,
        0 <= b_total <= 1_000_000_000_000_000_000,
    ensures
        r == ranks_before(a_unplaced as int, a_used as int, a_total as int, b_unplaced as int, b_used as int, b_total as int),
{
    if a_unplaced != b_unplaced {
        a_unplaced < b_unplaced
    } else if a_total == 0 {
        false
    } else if b_total == 0 {
        a_used > 0
    } else {
        let au = a_used as i128;
        let at = a_total as i128;
        let bu = b_used as i128;
        let bt = b_total as i128;
        assert(0 <= au * bt <= 1_000_000_000_000_000_000 * 1_000_000_000_000_000_000) by (nonlinear_arith)
            requires
                0 <= au <= 1_000_000_000_000_000_000,
                0 <= bt <= 1_000_000_000_000_000_000,
        ;
        assert(0 <= bu * at <= 1_000_000_000_000_000_000 * 1_000_000_000_000_000_000) by (nonlinear_arith)
            requires
                0 <= bu <= 1_000_000_000_000_000_000,
                0 <= at <= 1_000_000_000_000_000_000,
        ;
        au * bt > bu * at
    }
}

/// A candidate with its ranking figures.
pub struct Candidate {
    pub state: OptimizationState,
    pub unplaced: usize,
    pub used: i64,
    pub total: i64,
}

/// A sound candidate after `t` cuts were handled.
pub open spec fn candidate_ok(c: Candidate, inv: Seq<Leftover>, cuts: Seq<CutRequest>, kerf: int, t: int, done: Multiset<usize>) -> bool {
    &&& c.state.wf(inv, cuts, kerf)
    &&& c.state.opened@.len() <= t
    &&& c.state.unplaced@.len() <= t
    &&& placed_count(c.state.opened_view()) + c.state.unplaced@.len() == t
    &&& placed_indices(c.state.opened_view()).add(c.state.unplaced@.to_multiset()) == done
    &&& c.unplaced == c.state.unplaced@.len()
    &&& c.used == sum_used(c.state.opened_view())
    &&& c.total == sum_plank_area(c.state.opened_view(), inv)
    &&& 0 <= c.used <= 1_000_000_000_000_000_000
    &&& 0 <= c.total <= 1_000_000_000_000_000_000
}

/// Adds `c` to the beam after every candidate that it does not rank before,
/// keeping the first `BEAM_WIDTH`: the beam is the first `BEAM_WIDTH` of a
/// stable sort of all candidates offered.
fn offer_candidate(beam: &mut Vec<Candidate>, c: Candidate)
    requires
        old(beam)@.len() <= BEAM_WIDTH,
        0 <= c.used <= 1_000_000_000_000_000_000,
        0 <= c.total <= 1_000_000_000_000_000_000,
        forall|t: int| 0 <= t < old(beam)@.len() ==> 0 <= (#[trigger] old(beam)@[t]).used <= 1_000_000_000_000_000_000
            && 0 <= old(beam)@[t].total <= 1_000_000_000_000_000_000,
    ensures
        1 <= final(beam)@.len() <= BEAM_WIDTH,
        forall|t: int| 0 <= t < final(beam)@.len() ==> (#[trigger] final(beam)@[t]) == c || old(beam)@.contains(final(beam)@[t]),
{
    let ghost before = beam@;
    let mut pos: usize = 0;
    while pos < beam.len() && !better_candidate(c.unplaced, c.used, c.total, beam[pos].unplaced, beam[pos].used, beam[pos].total)
        invariant
            pos <= beam@.len(),
            beam@ == before,
            0 <= c.used <= 1_000_000_000_000_000_000,
            0 <= c.total <= 1_000_000_000_000_000_000,
            forall|t: int| 0 <= t < beam@.len() ==> 0 <= (#[trigger] beam@[t]).used <= 1_000_000_000_000_000_000
                && 0 <= beam@[t].total <= 1_000_000_000_000_000_000,
        decreases beam.len() - pos,
    {
        pos += 1;
    }
    if pos < BEAM_WIDTH {
        beam.insert(pos, c);
        if beam.len() > BEAM_WIDTH {
            beam.truncate(BEAM_WIDTH);
        }
        assert forall|t: int| 0 <= t < beam@.len() implies (#[trigger] beam@[t]) == c || before.contains(beam@[t]) by {
            let ins = before.insert(pos as int, c);
            assert(beam@[t] == ins[t]);
            if t < pos {
                assert(before[t] == ins[t]);
            } else if t > pos {
                assert(before[t - 1] == ins[t]);
            }
        }
    } else {
        assert forall|t: int| 0 <= t < beam@.len() implies (#[trigger] beam@[t]) == c || before.contains(beam@[t]) by {
            assert(before[t] == beam@[t]);
        }
    }
}

/// The lowercase material of each plank.
fn plank_keys(inv: &Vec<Leftover>) -> (keys: Vec<String>)
    ensures
        keys@.len() == inv@.len(),
        forall|i: int| 0 <= i < inv@.len() ==> (#[trigger] keys@[i])@ == lower_of(inv@[i].material@),
{
    let mut keys: Vec<String> = Vec::new();
    let mut i: usize = 0;
    while i < inv.len()
        invariant
            i <= inv@.len(),
            keys@.len() == i,
            forall|t: int| 0 <= t < i ==> (#[trigger] keys@[t])@ == lower_of(inv@[t].material@),
        decreases inv.len() - i,
    {
        keys.push(lowercase(inv[i].material.as_str()));
        i += 1;
    }
    keys
}

/// The lowercase material of each cut request.
fn cut_keys(cuts: &Vec<CutRequest>) -> (keys: Vec<String>)
    ensures
        keys@.len() == cuts@.len(),
        forall|i: int| 0 <= i < cuts@.len() ==> (#[trigger] keys@[i])@ == lower_of(cuts@[i].material@),
{
    let mut keys: Vec<String> = Vec::new();
    let mut i: usize = 0;
    while i < cuts.len()
        invariant
            i <= cuts@.len(),
            keys@.len() == i,
            forall|t: int| 0 <= t < i ==> (#[trigger] keys@[t])@ == lower_of(cuts@[t].material@),
        decreases cuts.len() - i,
    {
        keys.push(lowercase(cuts[i].material.as_str()));
        i += 1;
    }
    keys
}

fn make_candidate(
    state: OptimizationState,
    inv: &Vec<Leftover>,
    Ghost(cuts): Ghost<Seq<CutRequest>>,
    kerf: i64,
    Ghost(t): Ghost<int>,
    Ghost(done): Ghost<Multiset<usize>>,
) -> (c: Candidate)
    requires
        state.wf(inv@, cuts, kerf as int),
        inventory_ok(inv@),
        kerf_ok(kerf),
        state.opened@.len() <= t,
        state.unplaced@.len() <= t,
        placed_count(state.opened_view()) + state.unplaced@.len() == t,
        placed_indices(state.opened_view()).add(state.unplaced@.to_multiset()) == done,
        t <= MAX_OPENED,
    ensures
        candidate_ok(c, inv@, cuts, kerf as int, t, done),
{
    let (used, total) = state_areas(&state, inv, Ghost(cuts), kerf);
    assert(state.opened@.len() * 400_000_000 <= 1_000_000_000 * 400_000_000) by (nonlinear_arith)
        requires
            state.opened@.len() <= 1_000_000_000,
    ;
    let unplaced = state.unplaced.len();
    Candidate { state, unplaced, used, total }
}

/// Beam search: each cut in `order` is tried in every way that the best
/// placements of each candidate allow, and the `BEAM_WIDTH` best candidates
/// survive; the best one at the end is returned.
pub(crate) fn beam_search(
    inv: &Vec<Leftover>,
    cuts: &Vec<CutRequest>,
    order: &Vec<usize>,
    kerf: i64,
) -> (best: OptimizationState)
    requires
        inventory_ok(inv@),
        cut_list_ok(cuts@),
        kerf_ok(kerf),
        order@.len() <= MAX_OPENED,
        forall|t: int| 0 <= t < order@.len() ==> (#[trigger] order@[t]) < cuts@.len(),
    ensures
        best.wf(inv@, cuts@, kerf as int),
        best.unplaced@.len() <= order@.len(),
        best.opened@.len() <= order@.len(),
        placed_count(best.opened_view()) + best.unplaced@.len() == order@.len(),
        placed_indices(best.opened_view()).add(best.unplaced@.to_multiset()) == order@.to_multiset(),
{
    let keys = plank_keys(inv);
    let ckeys = cut_keys(cuts);
    let init = OptimizationState::new(inv);
    assert(init.wf(inv@, cuts@, kerf as int));
    assert(init.opened_view() =~= Seq::<OpenedView>::empty());
    let mut beam: Vec<Candidate> = Vec::new();
    proof {
        lemma_empty_to_multiset(init.unplaced@);
        lemma_empty_to_multiset(order@.subrange(0, 0));
        broadcast use vstd::multiset::group_multiset_axioms;
        assert(placed_indices(init.opened_view()).add(init.unplaced@.to_multiset()) =~= order@.subrange(0, 0).to_multiset());
    }
    beam.push(make_candidate(init, inv, Ghost(cuts@), kerf, Ghost(0), Ghost(order@.subrange(0, 0).to_multiset())));
    let mut t: usize = 0;
    while t < order.len()
        invariant
            t <= order@.len(),
            order@.len() <= MAX_OPENED,
            inventory_ok(inv@),
            cut_list_ok(cuts@),
            kerf_ok(kerf),
            forall|u: int| 0 <= u < order@.len() ==> (#[trigger] order@[u]) < cuts@.len(),
            keys@.len() == inv@.len(),
            forall|i: int| 0 <= i < inv@.len() ==> (#[trigger] keys@[i])@ == lower_of(inv@[i].material@),
            ckeys@.len() == cuts@.len(),
            forall|i: int| 0 <= i < cuts@.len() ==> (#[trigger] ckeys@[i])@ == lower_of(cuts@[i].material@),
            1 <= beam@.len() <= BEAM_WIDTH,
            forall|b: int| 0 <= b < beam@.len() ==> candidate_ok(#[trigger] beam@[b], inv@, cuts@, kerf as int, t as int, order@.subrange(0, t as int).to_multiset()),
        decreases order.len() - t,
    {
        let o = order[t];
        let cut = &cuts[o];
        proof {
            assert(order@.subrange(0, t + 1) =~= order@.subrange(0, t as int).push(o));
            vstd::seq_lib::to_multiset_build(order@.subrange(0, t as int), o);
        }
        let mut next: Vec<Candidate> = Vec::new();
        let mut bi: usize = 0;
        while bi < beam.len()
            invariant
                t < order@.len(),
                order@.len() <= MAX_OPENED,
                o < cuts@.len(),
                *cut == cuts@[o as int],
                inventory_ok(inv@),
                cut_list_ok(cuts@),
                kerf_ok(kerf),
                keys@.len() == inv@.len(),
                forall|i: int| 0 <= i < inv@.len() ==> (#[trigger] keys@[i])@ == lower_of(inv@[i].material@),
                ckeys@.len() == cuts@.len(),
                forall|i: int| 0 <= i < cuts@.len() ==> (#[trigger] ckeys@[i])@ == lower_of(cuts@[i].material@),
                bi <= beam@.len(),
                order@.subrange(0, t + 1).to_multiset() =~= order@.subrange(0, t as int).to_multiset().insert(o),
                1 <= beam@.len() <= BEAM_WIDTH,
                forall|b: int| 0 <= b < beam@.len() ==> candidate_ok(#[trigger] beam@[b], inv@, cuts@, kerf as int, t as int, order@.subrange(0, t as int).to_multiset()),
                next@.len() <= BEAM_WIDTH,
                bi > 0 ==> next@.len() >= 1,
                forall|b: int| 0 <= b < next@.len() ==> candidate_ok(#[trigger] next@[b], inv@, cuts@, kerf as int, t + 1, order@.subrange(0, t + 1).to_multiset()),
            decreases beam.len() - bi,
        {
            let st = &beam[bi].state;
            assert(candidate_ok(beam@[bi as int], inv@, cuts@, kerf as int, t as int, order@.subrange(0, t as int).to_multiset()));
            assert forall|j: int| 0 <= j < st.opened@.len() implies (#[trigger] st.opened@[j]).index < inv@.len() by {
                assert(st.opened_view()[j].0 == st.opened@[j].index);
            }
            let options = find_all_placements(st, inv, &keys, cut, &ckeys[o]);
            if options.len() == 0 {
                let ns = copy_state(st, Some(o));
                proof {
                    lemma_unplace_keeps_wf(st.opened_view(), st.free_view(), st.unplaced@, inv@, cuts@, kerf as int, o);
                }
                assert(ns.wf(inv@, cuts@, kerf as int));
                proof {
                    vstd::seq_lib::to_multiset_build(st.unplaced@, o);
                    broadcast use vstd::multiset::group_multiset_axioms;
                    assert(placed_indices(ns.opened_view()).add(ns.unplaced@.to_multiset())
                        =~= placed_indices(st.opened_view()).add(st.unplaced@.to_multiset()).insert(o));
                }
                assert(candidate_ok(beam@[bi as int], inv@, cuts@, kerf as int, t as int, order@.subrange(0, t as int).to_multiset()));
                let ghost before = next@;
                offer_candidate(&mut next, make_candidate(ns, inv, Ghost(cuts@), kerf, Ghost(t + 1), Ghost(order@.subrange(0, t + 1).to_multiset())));
                assert forall|b: int| 0 <= b < next@.len() implies candidate_ok(#[trigger] next@[b], inv@, cuts@, kerf as int, t + 1, order@.subrange(0, t + 1).to_multiset()) by {
                    if !before.contains(next@[b]) {
                    } else {
                        let u = choose|u: int| 0 <= u < before.len() && before[u] == next@[b];
                        assert(candidate_ok(before[u], inv@, cuts@, kerf as int, t + 1, order@.subrange(0, t + 1).to_multiset()));
                    }
                }
            } else {
                let mut k: usize = 0;
                while k < options.len()
                    invariant
                        t < order@.len(),
                        order@.len() <= MAX_OPENED,
                        o < cuts@.len(),
                        *cut == cuts@[o as int],
                        inventory_ok(inv@),
                        cut_list_ok(cuts@),
                        kerf_ok(kerf),
                        *st == beam@[bi as int].state,
                        candidate_ok(beam@[bi as int], inv@, cuts@, kerf as int, t as int, order@.subrange(0, t as int).to_multiset()),
                        options_ok(options@, st.free_view(), st.opened_view(), inv@, *cut),
                        options@.len() > 0,
                        k <= options@.len(),
                        order@.subrange(0, t + 1).to_multiset() =~= order@.subrange(0, t as int).to_multiset().insert(o),
                        next@.len() <= BEAM_WIDTH,
                        bi > 0 || k > 0 ==> next@.len() >= 1,
                        forall|b: int| 0 <= b < next@.len() ==> candidate_ok(#[trigger] next@[b], inv@, cuts@, kerf as int, t + 1, order@.subrange(0, t + 1).to_multiset()),
                    decreases options.len() - k,
                {
                    let opt = options[k];
                    assert(feasible(st.free_view(), inv@, *cut, opt.plank as int, opt.rect as int, opt.rotated));
                    let ns = apply_cut(st, inv, cuts, kerf, opt.plank, opt.rect, opt.rotated, o);
                    proof {
                        broadcast use vstd::multiset::group_multiset_axioms;
                        assert(placed_indices(ns.opened_view()).add(ns.unplaced@.to_multiset())
                            =~= placed_indices(st.opened_view()).add(st.unplaced@.to_multiset()).insert(o));
                    }
                    let ghost before = next@;
                    offer_candidate(&mut next, make_candidate(ns, inv, Ghost(cuts@), kerf, Ghost(t + 1), Ghost(order@.subrange(0, t + 1).to_multiset())));
                    assert forall|b: int| 0 <= b < next@.len() implies candidate_ok(#[trigger] next@[b], inv@, cuts@, kerf as int, t + 1, order@.subrange(0, t + 1).to_multiset()) by {
                        if !before.contains(next@[b]) {
                        } else {
                            let u = choose|u: int| 0 <= u < before.len() && before[u] == next@[b];
                            assert(candidate_ok(before[u], inv@, cuts@, kerf as int, t + 1, order@.subrange(0, t + 1).to_multiset()));
                        }
                    }
                    k += 1;
                }
            }
            bi += 1;
        }
        beam = next;
        t += 1;
    }
    let best = copy_state(&beam[0].state, None);
    assert(order@.subrange(0, t as int) =~= order@);
    assert(candidate_ok(beam@[0], inv@, cuts@, kerf as int, t as int, order@.subrange(0, t as int).to_multiset()));
    best
}

/// The area accounting of every opened plank while the search runs: the
/// cuts and the free rectangles left (each at least `MIN_USEFUL_SIZE` on a
/// side, else dropped) take no more than the plank; and with the kerf
/// charged for each cut, no more than the plank grown by one kerf on its
/// right and bottom sides.
pub proof fn lemma_free_area_accounting(st: OptimizationState, inv: Seq<Leftover>, cuts: Seq<CutRequest>, kerf: int, j: int)
    requires
        st.wf(inv, cuts, kerf),
        kerf >= 0,
        0 <= j < st.opened@.len(),
    ensures
        ({
            let e = st.opened_view()[j];
            let fs = st.free_view()[e.0 as int];
            let p = inv[e.0 as int];
            &&& sum_cut_area(e.1) + sum_free_area(fs) <= p.width_mm * p.height_mm
            &&& sum_cut_charge(e.1, kerf) + sum_free_area(fs) <= (p.width_mm + kerf) * (p.height_mm + kerf)
        }),
{
    let e = st.opened_view()[j];
    let fs = st.free_view()[e.0 as int];
    let p = inv[e.0 as int];
    assert(plank_layout_ok(e.1, fs, p, kerf));
    lemma_layout_charge_bounded(e.1, fs, p, kerf);
    lemma_free_area_le_grown(fs, kerf);
    assert forall|i: int| 0 <= i < e.1.len() implies #[trigger] e.1[i].width >= 0 && e.1[i].height >= 0 by {
        assert(on_plank(e.1[i].x as int, e.1[i].y as int, e.1[i].width as int, e.1[i].height as int, p.width_mm as int, p.height_mm as int));
    }
    lemma_charge_bounded(e.1, kerf);
}

} // verus!
