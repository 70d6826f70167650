//! Core logic of an Odoo language server: module load order, suppression
//! comments, file version and build state, import path slicing, the symbol
//! tree and its cache records, path templates, and the decisions that
//! schedule rebuilds.

pub mod load_order;
pub mod noqa;
pub mod file_state;
pub mod import_path;
pub mod cache;
pub mod utils;
pub mod session;
pub mod template;
pub mod symbols;
