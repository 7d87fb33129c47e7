//! Recognition of Robinson dissimilarities through module decomposition.
//!
//! A square dissimilarity matrix is Robinson when its entries never decrease
//! moving away from the diagonal along a row or a column. `Robin` searches a
//! reordering of the elements under which a given matrix becomes Robinson, and
//! checks the candidate it builds with `DistanceMatrice::is_robinson`.
pub mod func;
pub mod matrix;
pub mod ordered_map;
pub mod robin;
pub mod seqs;

pub use matrix::DistanceMatrice;
pub use robin::{Robin, RobinError, VecPoint};
