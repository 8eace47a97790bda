//! Combinatorial and discrete core of a geometric measure theory toolkit:
//! simplicial chains and their boundaries, covering and clustering of point
//! sets given by their pairwise proximity, the similarity data of classical
//! self-similar fractals, the classification of singular points, and the
//! index arithmetic of windowed and strided sampling.

pub mod agent;
pub mod compactness;
pub mod currents;
pub mod hausdorff;
pub mod isoperimetric;
pub mod monotonicity;
pub mod plateau;
pub mod rectifiability;
