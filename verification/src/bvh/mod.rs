//! A bounding volume hierarchy over the primitives of a scene: what it is
//! (`tree`), what holds of it while it grows (`growth`), how it is built and
//! walked (`index`), and how the nearest hit is found through it
//! (`nearest`).

pub mod growth;
pub mod index;
pub mod nearest;
pub mod tree;
