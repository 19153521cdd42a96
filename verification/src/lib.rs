//! Triangle meshes on an integer lattice: bounding boxes, an octree over the
//! triangles of a mesh, and the split of a mesh into its connected
//! components.
//!
//! A coordinate is a whole number of lattice steps, of which 2^20 make one
//! unit of length. The numbers of a mesh file are brought onto the lattice by
//! [`quantize::quantize`]; two points are the same point where they lie on
//! the same lattice point. Arithmetic on coordinates saturates at the bounds
//! of `i64`, which stand for the two infinities.

use vstd::prelude::*;

pub mod ascii;
pub mod bbox;
pub mod binary;
pub mod error;
pub mod index_buffer;
pub mod island_laws;
pub mod mesh;
pub mod octree;
pub mod octree_laws;
pub mod octree_lemmas;
pub mod point_index;
pub mod quantize;
pub mod scalar;
pub mod tally;
pub mod union_find;
pub mod vertex;

pub use bbox::BoundingBox;
pub use error::{StlError, StlResult};
pub use index_buffer::{IndexBuffer, Layout};
pub use mesh::{Parsed, StlFile};
pub use octree::{Octant, Octree};
pub use union_find::UnionFind;
pub use vertex::{Intersection, Normal, Point, Triangle, VertexWithNormal};

verus! {

} // verus!
