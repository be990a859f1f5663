use retlister::cutting::{
    default_kerf, default_min_remainder, optimize_cuts, run_optimization_sync, validate_cut_request,
    CutRequest, Leftover, OptimizeCutsRequest, OptimizeCutsResponse,
};
use retlister::validation::AppError;

fn plank(id: i64, w: i64, h: i64, material: &str, thickness: i64) -> Leftover {
    Leftover {
        id,
        width_mm: w,
        height_mm: h,
        thickness_mm: thickness,
        material: material.to_string(),
        notes: None,
        created_at: String::new(),
    }
}

fn cut(w: i64, h: i64, material: &str, thickness: i64, quantity: i32) -> CutRequest {
    CutRequest { width_mm: w, height_mm: h, thickness_mm: thickness, material: material.to_string(), quantity }
}

fn request(cuts: Vec<CutRequest>, kerf: i64) -> OptimizeCutsRequest {
    OptimizeCutsRequest { cuts, kerf_width_mm: kerf, min_remainder_width_mm: 100, min_remainder_height_mm: 100 }
}

fn grown_apart(a: (i64, i64, i64, i64), b: (i64, i64, i64, i64), k: i64) -> bool {
    a.0 + a.2 + k <= b.0 || b.0 + b.2 + k <= a.0 || a.1 + a.3 + k <= b.1 || b.1 + b.3 + k <= a.1
}

fn check_layout(resp: &OptimizeCutsResponse, req: &OptimizeCutsRequest) {
    let k = req.kerf_width_mm;
    for u in &resp.used_planks {
        assert!(!u.cuts.is_empty());
        let mut area = 0;
        for (i, a) in u.cuts.iter().enumerate() {
            assert!(a.x >= 0 && a.y >= 0 && a.x + a.width <= u.width_mm && a.y + a.height <= u.height_mm);
            let r = &req.cuts[a.original_index];
            if a.rotated {
                assert_eq!((a.width, a.height), (r.height_mm, r.width_mm));
            } else {
                assert_eq!((a.width, a.height), (r.width_mm, r.height_mm));
            }
            area += a.width * a.height;
            for (j, b) in u.cuts.iter().enumerate() {
                if i != j {
                    assert!(grown_apart((a.x, a.y, a.width, a.height), (b.x, b.y, b.width, b.height), k));
                }
            }
        }
        assert!(area <= u.total_area_mm2);
        assert!(u.used_area_mm2 <= (u.width_mm + k) * (u.height_mm + k));
    }
    assert_eq!(resp.total_cuts_placed + resp.unplaced_cuts.len(), resp.total_cuts_requested);
}

#[test]
fn defaults_are_three_and_one_hundred() {
    assert_eq!(default_kerf(), 3);
    assert_eq!(default_min_remainder(), 100);
}

#[test]
fn single_cut_on_sufficient_stock() {
    let req = request(vec![cut(200, 200, "oak", 18, 1)], 3);
    let resp = optimize_cuts(&req, vec![plank(7, 1000, 1000, "oak", 18)]).unwrap();
    assert!(resp.success);
    assert_eq!(resp.used_planks.len(), 1);
    let u = &resp.used_planks[0];
    assert_eq!(u.resto_id, 7);
    assert_eq!(u.cuts.len(), 1);
    assert_eq!((u.cuts[0].x, u.cuts[0].y), (0, 0));
    assert!(!u.cuts[0].rotated);
    assert!(resp.unplaced_cuts.is_empty());
    assert_eq!(u.used_area_mm2, 200 * 200 + 400 * 3);
    assert_eq!(u.total_area_mm2, 1_000_000);
    assert_eq!(resp.total_used_area_mm2, 41_200);
    assert_eq!(resp.total_available_area_mm2, 1_000_000);
}

#[test]
fn empty_inventory_escalates_to_a_virtual_sheet() {
    let req = request(vec![cut(500, 500, "oak", 18, 1)], 3);
    let resp = optimize_cuts(&req, Vec::new()).unwrap();
    assert_eq!(resp.used_planks.len(), 1);
    let u = &resp.used_planks[0];
    assert_eq!(u.resto_id, -1);
    assert_eq!((u.width_mm, u.height_mm), (2800, 3000));
    assert_eq!(u.material, "oak");
    assert_eq!(u.thickness_mm, 18);
    assert!(resp.unplaced_cuts.is_empty());
}

#[test]
fn virtual_sheets_are_capped_at_ten() {
    let req = request(vec![cut(2800, 3000, "oak", 18, 11)], 3);
    let resp = optimize_cuts(&req, Vec::new()).unwrap();
    assert!(!resp.unplaced_cuts.is_empty());
    let mut negatives: Vec<i64> = resp.used_planks.iter().map(|u| u.resto_id).filter(|id| *id < 0).collect();
    negatives.sort();
    negatives.dedup();
    assert!(negatives.len() <= 10);
    assert!(negatives.iter().all(|id| *id >= -10));
    assert_eq!(resp.total_cuts_requested, 11);
    assert_eq!(resp.unplaced_cuts.len(), 1);
    check_layout(&resp, &req);
}

#[test]
fn rotation_is_used_when_only_the_swapped_size_fits() {
    let req = request(vec![cut(800, 300, "oak", 18, 1)], 3);
    let resp = optimize_cuts(&req, vec![plank(1, 400, 900, "oak", 18)]).unwrap();
    assert_eq!(resp.used_planks.len(), 1);
    let c = &resp.used_planks[0].cuts[0];
    assert!(c.rotated);
    assert_eq!((c.width, c.height), (300, 800));
}

#[test]
fn material_is_matched_without_case() {
    let req = request(vec![cut(100, 100, "OAK", 18, 1)], 3);
    let resp = run_optimization_sync(&req, &vec![plank(5, 500, 500, "oak", 18), plank(6, 500, 500, "pine", 18)]);
    assert_eq!(resp.used_planks.len(), 1);
    assert_eq!(resp.used_planks[0].resto_id, 5);
}

#[test]
fn other_thickness_is_not_used() {
    let req = request(vec![cut(100, 100, "oak", 18, 1)], 3);
    let resp = run_optimization_sync(&req, &vec![plank(5, 500, 500, "oak", 12)]);
    assert!(resp.used_planks.is_empty());
    assert_eq!(resp.unplaced_cuts.len(), 1);
    assert_eq!(resp.unplaced_cuts[0].0, 0);
    assert_eq!(resp.unplaced_cuts[0].1.width_mm, 100);
    assert_eq!(resp.total_cuts_placed, 0);
}

#[test]
fn opened_plank_is_preferred_and_cuts_do_not_overlap() {
    let req = request(vec![cut(300, 200, "oak", 18, 4), cut(150, 150, "oak", 18, 3)], 3);
    let inv = vec![plank(1, 2000, 2000, "oak", 18), plank(2, 700, 700, "oak", 18), plank(3, 1000, 600, "oak", 18)];
    let resp = optimize_cuts(&req, inv).unwrap();
    assert!(resp.unplaced_cuts.is_empty());
    assert_eq!(resp.total_cuts_placed, 7);
    check_layout(&resp, &req);
    let placed: usize = resp.used_planks.iter().map(|u| u.cuts.len()).sum();
    assert_eq!(placed, 7);
}

#[test]
fn larger_cuts_are_placed_first() {
    let req = request(vec![cut(100, 100, "oak", 18, 1), cut(400, 400, "oak", 18, 1)], 3);
    let resp = optimize_cuts(&req, vec![plank(1, 1000, 1000, "oak", 18)]).unwrap();
    let u = &resp.used_planks[0];
    assert_eq!(u.cuts[0].original_index, 1);
    assert_eq!((u.cuts[0].x, u.cuts[0].y), (0, 0));
    assert_eq!(u.cuts[1].original_index, 0);
}

#[test]
fn split_remainders_below_thirty_are_dropped() {
    let req = request(vec![cut(980, 980, "oak", 18, 1), cut(20, 20, "oak", 18, 1)], 3);
    let resp = run_optimization_sync(&req, &vec![plank(1, 1000, 1000, "oak", 18)]);
    assert_eq!(resp.used_planks.len(), 1);
    assert_eq!(resp.unplaced_cuts.len(), 1);
    assert_eq!(resp.unplaced_cuts[0].0, 1);
}

#[test]
fn invalid_width_is_rejected() {
    let req = request(vec![cut(200, 200, "oak", 18, 1), cut(5, 200, "oak", 18, 1)], 3);
    match optimize_cuts(&req, Vec::new()) {
        Err(AppError::Validation(msg)) => assert_eq!(msg, "Cut 1: width must be 10-10000mm"),
        _ => panic!("expected a validation error"),
    }
}

#[test]
fn invalid_height_thickness_and_quantity_are_rejected() {
    assert!(matches!(validate_cut_request(&request(vec![cut(200, 10001, "oak", 18, 1)], 3)), Err(AppError::Validation(_))));
    assert!(matches!(validate_cut_request(&request(vec![cut(200, 200, "oak", 0, 1)], 3)), Err(AppError::Validation(_))));
    assert!(matches!(validate_cut_request(&request(vec![cut(200, 200, "oak", 18, 1001)], 3)), Err(AppError::Validation(_))));
    assert!(matches!(validate_cut_request(&request(vec![cut(200, 200, "oak", 18, 0)], 3)), Err(AppError::Validation(_))));
    assert!(validate_cut_request(&request(vec![cut(200, 200, "oak", 18, 1)], 20000)).is_ok());
    match validate_cut_request(&request(vec![cut(200, 200, "oak", 18, 1), cut(200, 200, "oak", 0, 1)], 3)) {
        Err(AppError::Validation(msg)) => assert_eq!(msg, "Cut 1: thickness must be 1-1000mm"),
        _ => panic!("expected a validation error"),
    }
    assert!(validate_cut_request(&request(vec![cut(10, 10000, "oak", 1000, 1000)], 0)).is_ok());
}

#[test]
fn empty_cut_list_places_nothing() {
    let resp = optimize_cuts(&request(Vec::new(), 3), vec![plank(1, 100, 100, "oak", 18)]).unwrap();
    assert!(resp.used_planks.is_empty());
    assert_eq!(resp.total_cuts_requested, 0);
    assert_eq!(resp.total_available_area_mm2, 0);
}
