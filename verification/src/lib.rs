//! Verified core of the Atomic browser's JavaScript runtime bindings: the
//! decisions, data models and encodings that the QuickJS glue relies on.

pub mod limits;
pub mod names;
pub mod text;
pub mod class_list;
pub mod events;
pub mod urls;
pub mod history;
pub mod form_data;
pub mod forms;
pub mod dataset;
pub mod request;
pub mod tree;
pub mod edits;
pub mod attributes;
