//! Leftover-stock inventory: a guillotine cutting optimizer, a van loading
//! optimizer and the decision logic of an offline-first inventory mirror.

pub mod cutting;
pub mod geometry;
pub mod layout;
pub mod loading;
pub mod search;
pub mod sync;
pub mod text;
pub mod validation;
