//! Arranging images into a collage: the verified layout, selection and
//! masking decisions behind the collage tool.
pub mod partition;
pub mod rows;
pub mod path;
pub mod order;
pub mod collect;
pub mod output;
pub mod effects;
pub mod layout;
