use retlister::validation::{default_true, validate_dimensions, validate_material, validate_notes, validate_van_dimensions, AppError};

#[test]
fn dimensions_within_bounds_pass() {
    assert!(validate_dimensions(1, 10000, 1000).is_ok());
    assert!(validate_van_dimensions(1, 10000, 10000).is_ok());
}

#[test]
fn dimensions_out_of_bounds_fail() {
    assert!(matches!(validate_dimensions(0, 10, 10), Err(AppError::Validation(_))));
    assert!(matches!(validate_dimensions(10, 10001, 10), Err(AppError::Validation(_))));
    assert!(matches!(validate_dimensions(10, 10, 1001), Err(AppError::Validation(_))));
    assert!(matches!(validate_van_dimensions(10, 10, 0), Err(AppError::Validation(_))));
}

#[test]
fn material_rules() {
    assert!(validate_material("oak").is_ok());
    assert!(matches!(validate_material(""), Err(AppError::Validation(_))));
    assert!(matches!(validate_material("   "), Err(AppError::Validation(_))));
    assert!(matches!(validate_material(&"x".repeat(65)), Err(AppError::Validation(_))));
    assert!(validate_material(&"x".repeat(64)).is_ok());
}

#[test]
fn notes_rules() {
    assert!(validate_notes(&None).is_ok());
    assert!(validate_notes(&Some("n".repeat(256))).is_ok());
    assert!(matches!(validate_notes(&Some("n".repeat(257))), Err(AppError::Validation(_))));
}

#[test]
fn default_flag_is_true() {
    assert!(default_true());
}

#[test]
fn dimension_messages_name_the_first_bad_field() {
    match validate_dimensions(0, 0, 0) {
        Err(AppError::Validation(m)) => assert_eq!(m, "Width must be 1-10000 mm"),
        _ => panic!("expected a validation error"),
    }
    match validate_dimensions(10, 0, 0) {
        Err(AppError::Validation(m)) => assert_eq!(m, "Height must be 1-10000 mm"),
        _ => panic!("expected a validation error"),
    }
    match validate_van_dimensions(10, 10, 20000) {
        Err(AppError::Validation(m)) => assert_eq!(m, "Height must be 1-10000 mm"),
        _ => panic!("expected a validation error"),
    }
}
