//! An R-tree builder: a spatial index over bounding-box-tagged records,
//! serialized to a compact, block-aligned binary layout for random-access
//! reads.
//!
//! The library proves its core guarantees: the geometry cost metric and
//! its laws, the bounding-rectangle and fanout invariants of the tree,
//! exact preservation of every inserted leaf across insertion and
//! splitting, and a round-trip theorem for the binary encoding — the
//! encoded bytes, walked from the header's root offset, yield exactly
//! the payload points the tree holds, through blocks aligned to 512
//! bytes.

pub mod decode;
pub mod encode;
pub mod geom;
pub mod insert;
pub mod node;
pub mod split;
