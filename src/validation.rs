//! Bounds on the values that users submit, and the library's error type.

use vstd::prelude::*;
use crate::text::{trim_str, trimmed};

verus! {

pub const MIN_DIMENSION: i64 = 1;

pub const MAX_DIMENSION: i64 = 10000;

pub const MAX_THICKNESS: i64 = 1000;

pub const MIN_MATERIAL_LEN: usize = 1;

pub const MAX_MATERIAL_LEN: usize = 64;

pub const MAX_NOTES_LEN: usize = 256;

/// Errors surfaced to a caller: a bad input, a missing record, or a failure
/// of a collaborator.
#[derive(Debug)]
pub enum AppError {
    Validation(String),
    NotFound(String),
    Internal(String),
}

impl AppError {
    pub open spec fn is_validation(&self) -> bool {
        self is Validation
    }
}

pub open spec fn in_range(v: i64, lo: i64, hi: i64) -> bool {
    lo <= v <= hi
}

/// The dimensions of a leftover plank: width and height in
/// `[MIN_DIMENSION, MAX_DIMENSION]`, thickness in `[MIN_DIMENSION, MAX_THICKNESS]`.
pub open spec fn dimensions_ok(width: i64, height: i64, thickness: i64) -> bool {
    &&& in_range(width, MIN_DIMENSION, MAX_DIMENSION)
    &&& in_range(height, MIN_DIMENSION, MAX_DIMENSION)
    &&& in_range(thickness, MIN_DIMENSION, MAX_THICKNESS)
}

pub open spec fn van_dimensions_ok(length: i64, width: i64, height: i64) -> bool {
    &&& in_range(length, MIN_DIMENSION, MAX_DIMENSION)
    &&& in_range(width, MIN_DIMENSION, MAX_DIMENSION)
    &&& in_range(height, MIN_DIMENSION, MAX_DIMENSION)
}

pub fn validate_dimensions(width: i64, height: i64, thickness: i64) -> (r: Result<(), AppError>)
    ensures
        r is Ok <==> dimensions_ok(width, height, thickness),
        r matches Err(e) ==> e matches AppError::Validation(m) && m@ == (if !in_range(width, MIN_DIMENSION, MAX_DIMENSION) {
            "Width must be 1-10000 mm"@
        } else if !in_range(height, MIN_DIMENSION, MAX_DIMENSION) {
            "Height must be 1-10000 mm"@
        } else {
            "Thickness must be 1-1000 mm"@
        }),
{
    if width < MIN_DIMENSION || width > MAX_DIMENSION {
        return Err(AppError::Validation("Width must be 1-10000 mm".to_string()));
    }
    if height < MIN_DIMENSION || height > MAX_DIMENSION {
        return Err(AppError::Validation("Height must be 1-10000 mm".to_string()));
    }
    if thickness < MIN_DIMENSION || thickness > MAX_THICKNESS {
        return Err(AppError::Validation("Thickness must be 1-1000 mm".to_string()));
    }
    Ok(())
}

pub fn validate_van_dimensions(length: i64, width: i64, height: i64) -> (r: Result<(), AppError>)
    ensures
        r is Ok <==> van_dimensions_ok(length, width, height),
        r matches Err(e) ==> e matches AppError::Validation(m) && m@ == (if !in_range(length, MIN_DIMENSION, MAX_DIMENSION) {
            "Length must be 1-10000 mm"@
        } else if !in_range(width, MIN_DIMENSION, MAX_DIMENSION) {
            "Width must be 1-10000 mm"@
        } else {
            "Height must be 1-10000 mm"@
        }),
{
    if length < MIN_DIMENSION || length > MAX_DIMENSION {
        return Err(AppError::Validation("Length must be 1-10000 mm".to_string()));
    }
    if width < MIN_DIMENSION || width > MAX_DIMENSION {
        return Err(AppError::Validation("Width must be 1-10000 mm".to_string()));
    }
    if height < MIN_DIMENSION || height > MAX_DIMENSION {
        return Err(AppError::Validation("Height must be 1-10000 mm".to_string()));
    }
    Ok(())
}

/// The number of bytes that `str::len` reports for a string.
pub open spec fn byte_len(s: Seq<char>) -> usize {
    vstd::utf8::encode_utf8(s).len() as usize
}

/// A material name: between `MIN_MATERIAL_LEN` and `MAX_MATERIAL_LEN` bytes,
/// and not only white space.
pub open spec fn material_ok(material: &str) -> bool {
    &&& MIN_MATERIAL_LEN <= byte_len(material@) <= MAX_MATERIAL_LEN
    &&& trimmed(material@).len() > 0
}

pub fn validate_material(material: &str) -> (r: Result<(), AppError>)
    ensures
        r is Ok <==> material_ok(material),
        r matches Err(e) ==> e.is_validation(),
{
    let len = material.len();
    if len < MIN_MATERIAL_LEN || len > MAX_MATERIAL_LEN {
        return Err(AppError::Validation("Material must be 1-64 chars".to_string()));
    }
    if trim_str(material).is_empty() {
        return Err(AppError::Validation("Material cannot be empty".to_string()));
    }
    Ok(())
}

/// Notes are optional; when present they hold at most `MAX_NOTES_LEN` bytes.
pub open spec fn notes_ok(notes: Option<String>) -> bool {
    notes matches Some(n) ==> byte_len(n@) <= MAX_NOTES_LEN
}

pub fn validate_notes(notes: &Option<String>) -> (r: Result<(), AppError>)
    ensures
        r is Ok <==> notes_ok(*notes),
        r matches Err(e) ==> e.is_validation(),
{
    if let Some(n) = notes {
        if n.as_str().len() > MAX_NOTES_LEN {
            return Err(AppError::Validation("Notes max 256 chars".to_string()));
        }
    }
    Ok(())
}

/// The default of the boolean capability flags of a cargo item.
pub fn default_true() -> (r: bool)
    ensures
        r,
{
    true
}

} // verus!
