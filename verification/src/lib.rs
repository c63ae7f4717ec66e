//! Graph learning primitives.
//!
//! - [`curvature`]: Ollivier-Ricci edge curvature, the primitive behind
//!   curvature-based rewiring of oversquashed graphs
//! - [`features`]: homomorphism-count node features (walks and closed walks)
//! - [`relgraph`]: the graph of relation interactions of a knowledge graph
//! - [`scatter`] and [`csr`]: exact segment maximum and minimum over edge lists,
//!   on the edge list as it is and grouped by segment
//! - [`counted`] and [`metrics`]: the same, keeping count of its cost
//! - [`nn`]: the relational graph convolution, apart from its tensors
//!
//! Numbers are carried as bit patterns ([`ieee`]): the library orders, negates,
//! classifies, rounds and moves them, and leaves their arithmetic to the
//! functions that callers hand in.
pub mod counted;
pub mod csr;
pub mod curvature;
pub mod features;
pub mod hops;
pub mod ieee;
pub mod index;
pub mod matrix;
pub mod metrics;
pub mod nn;
pub mod relgraph;
pub mod scatter;
pub mod select;
pub mod sums;

pub use csr::{
    scatter_max_min_indices_wgpu, scatter_max_min_wgpu, segment_argmax_min_kernel, segment_csr,
};
pub use curvature::{ollivier_ricci_curvatures, CurvatureConfig, CurvatureError, EdgeCurvature};
pub use features::hom_profile;
pub use metrics::{
    record_scatter_metrics, reset_scatter_metrics, scatter_metrics, ScatterMetrics,
};
pub use nn::RGCNConv;
pub use relgraph::{interaction_stats, relation_graph, RelationGraphStats};
pub use scatter::{scatter_max, scatter_max_min, scatter_min};
