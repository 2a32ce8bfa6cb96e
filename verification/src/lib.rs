//! A small fuzzy-logic service core: pairs of integer parameters are reduced
//! to one crisp value by centroid defuzzification over a raised-cosine
//! membership table, and the crisp values are collected in an ordered binary
//! tree that serializes to a nested document.

pub mod document;
pub mod errors;
pub mod fuzzy;
pub mod json;
pub mod store;
pub mod tree;
