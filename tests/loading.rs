use retlister::loading::{collides_with_wheel_well, default_weight, optimize_loading, CargoItem, Cuboid, Van};
use retlister::validation::AppError;

fn van(l: i64, w: i64, h: i64) -> Van {
    Van {
        id: 1,
        name: "Van".to_string(),
        length_mm: l,
        width_mm: w,
        height_mm: h,
        max_weight_kg: None,
        wheel_well_height_mm: None,
        wheel_well_width_mm: None,
        wheel_well_start_x_mm: None,
        active: true,
        notes: None,
        created_at: String::new(),
    }
}

fn item(desc: &str, l: i64, w: i64, h: i64, weight_g: i64, fragile: bool) -> CargoItem {
    CargoItem {
        description: desc.to_string(),
        length_mm: l,
        width_mm: w,
        height_mm: h,
        weight_g,
        fragile,
        rotation_allowed: true,
        stackable: true,
        color: None,
    }
}

fn wheel_van() -> Van {
    let mut v = van(4000, 2000, 2000);
    v.wheel_well_start_x_mm = Some(1000);
    v.wheel_well_height_mm = Some(300);
    v.wheel_well_width_mm = Some(200);
    v
}

#[test]
fn default_weight_is_one_kilogram() {
    assert_eq!(default_weight(), 1000);
}

#[test]
fn sturdy_heavy_items_go_first_and_fragile_on_top() {
    let items = vec![
        item("A", 500, 500, 500, 10_000, true),
        item("B", 500, 500, 500, 50_000, false),
        item("C", 500, 500, 500, 20_000, false),
    ];
    let resp = optimize_loading(&van(4000, 2000, 2000), &items).unwrap();
    assert!(resp.success);
    let plan = resp.plan.unwrap();
    let order: Vec<&str> = plan.items.iter().map(|p| p.item.description.as_str()).collect();
    assert_eq!(order, vec!["B", "C", "A"]);
    assert_eq!(plan.items[0].position.y, 0);
    assert!(plan.items[2].position.y > 0);
    assert!(resp.unplaced_items.is_empty());
    assert_eq!(plan.used_volume, 3 * 125_000_000);
    assert_eq!(plan.van_volume, 16_000_000_000);
    assert_eq!(plan.total_weight_g, 80_000);
}

#[test]
fn wheel_well_blocks_low_corridor_placement() {
    let v = wheel_van();
    let low = Cuboid { x: 500, y: 0, z: 0, l: 3000, w: 200, h: 200 };
    let raised = Cuboid { x: 500, y: 300, z: 0, l: 3000, w: 200, h: 200 };
    assert!(collides_with_wheel_well(low, &v));
    assert!(!collides_with_wheel_well(raised, &v));
    let centre = Cuboid { x: 500, y: 0, z: 900, l: 3000, w: 200, h: 200 };
    assert!(!collides_with_wheel_well(centre, &v));
    let far_side = Cuboid { x: 500, y: 0, z: 1850, l: 3000, w: 100, h: 200 };
    assert!(collides_with_wheel_well(far_side, &v));
    let before_well = Cuboid { x: 0, y: 0, z: 0, l: 1000, w: 200, h: 200 };
    assert!(!collides_with_wheel_well(before_well, &v));
}

#[test]
fn no_wheel_well_without_its_dimensions() {
    let mut v = wheel_van();
    v.wheel_well_width_mm = Some(0);
    assert!(!collides_with_wheel_well(Cuboid { x: 500, y: 0, z: 0, l: 3000, w: 200, h: 200 }, &v));
}

#[test]
fn placed_items_avoid_wheel_wells() {
    let v = wheel_van();
    let mut long = item("long", 3000, 200, 200, 5_000, false);
    long.rotation_allowed = false;
    let mut short = item("short", 800, 200, 200, 9_000, false);
    short.rotation_allowed = false;
    let resp = optimize_loading(&v, &vec![long, short]).unwrap();
    let plan = resp.plan.unwrap();
    assert_eq!(plan.items.len(), 1);
    assert_eq!(plan.items[0].item.description, "short");
    for p in &plan.items {
        let b = Cuboid { x: p.position.x, y: p.position.y, z: p.position.z, l: p.placed_length, w: p.placed_width, h: p.placed_height };
        assert!(!collides_with_wheel_well(b, &v));
    }
    assert_eq!(resp.unplaced_items.len(), 1);
    assert_eq!(resp.unplaced_items[0].description, "long");
}

#[test]
fn empty_list_gives_a_warning() {
    let resp = optimize_loading(&van(4000, 2000, 2000), &Vec::new()).unwrap();
    assert!(!resp.success);
    assert!(resp.plan.is_none());
    assert_eq!(resp.warnings, vec!["No items to load".to_string()]);
}

#[test]
fn item_too_large_is_reported() {
    let mut big = item("crate", 3000, 3000, 3000, 5_000, false);
    big.rotation_allowed = false;
    let resp = optimize_loading(&van(2000, 2000, 2000), &vec![big]).unwrap();
    assert!(resp.success);
    assert_eq!(resp.plan.unwrap().items.len(), 0);
    assert_eq!(resp.unplaced_items.len(), 1);
    assert!(resp.warnings.contains(&"Item 'crate' could not be placed".to_string()));
    assert!(resp.warnings.contains(&"Item 'crate' is larger than the van".to_string()));
}

#[test]
fn overweight_is_a_warning_only() {
    let mut v = van(4000, 2000, 2000);
    v.max_weight_kg = Some(100);
    let items = vec![item("a", 500, 500, 500, 80_000, false), item("b", 500, 500, 500, 80_000, false)];
    let resp = optimize_loading(&v, &items).unwrap();
    assert!(resp.success);
    assert_eq!(resp.plan.unwrap().items.len(), 2);
    assert!(resp.warnings.contains(&"Total weight exceeds the van's maximum load".to_string()));
}

#[test]
fn invalid_items_and_inactive_van_fail() {
    assert!(matches!(
        optimize_loading(&van(4000, 2000, 2000), &vec![item("a", 5, 500, 500, 1000, false)]),
        Err(AppError::Validation(_))
    ));
    assert!(matches!(
        optimize_loading(&van(4000, 2000, 2000), &vec![item("a", 500, 500, 500, 500_001, false)]),
        Err(AppError::Validation(_))
    ));
    assert!(matches!(
        optimize_loading(&van(4000, 2000, 2000), &vec![item("", 500, 500, 500, 1000, false)]),
        Err(AppError::Validation(_))
    ));
    let mut inactive = van(4000, 2000, 2000);
    inactive.active = false;
    assert!(matches!(optimize_loading(&inactive, &vec![item("a", 500, 500, 500, 1000, false)]), Err(AppError::NotFound(_))));
}

#[test]
fn rotation_lets_a_tall_item_lie_down() {
    let resp = optimize_loading(&van(3000, 2000, 1000), &vec![item("pole", 200, 200, 2500, 1000, false)]).unwrap();
    let plan = resp.plan.unwrap();
    assert_eq!(plan.items.len(), 1);
    assert!(plan.items[0].placed_height <= 1000);
}
