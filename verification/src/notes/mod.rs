//! Notes: their model, naming rules, search and order, and folder scanning rules.

pub mod model;
pub mod naming;
pub mod scan;
pub mod search;
