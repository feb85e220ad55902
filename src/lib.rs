//! Builds an empty CSS rule skeleton from the class names used in an HTML
//! document: the document tree is walked in pre-order, the class names are
//! reduced to their first occurrences, and one empty rule is emitted for each.

pub mod tree;
pub mod unique;
pub mod css;
pub mod html;
