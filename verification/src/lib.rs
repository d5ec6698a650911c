//! A treap whose priorities are given by its user, and on top of it the
//! CVM estimator of the number of distinct tokens in a stream.
//!
//! A treap is a binary search tree by value that is at the same time a heap
//! by priority: a value is found by walking down from the root, and the
//! element of highest priority is the root. The estimator keeps a bounded
//! sample of the tokens it has seen in such a treap, ordered by the random
//! draw that each token came with, and estimates the number of distinct
//! tokens from the size of the sample and the threshold below which a draw
//! had to fall.

pub mod cvm;
pub mod data;
pub mod estimator;
pub mod order;
pub mod show;
pub mod treap;
pub mod treap_node;

pub use cvm::CountUnique;
pub use data::Element;
pub use estimator::Estimator;
pub use treap::Treap;
pub use treap_node::TreapNode;
