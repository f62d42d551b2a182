//! A height-balanced B-tree rope.
//!
//! The tree stores an ordered sequence of opaque, length-bounded content
//! chunks and maintains an incrementally aggregated summary ("info") over the
//! whole sequence. Chunk content and its summary algebra are supplied by the
//! user through the [`Chunk`] and [`Info`] capability traits; the tree itself
//! provides O(log n) concatenation with merge-or-distribute rebalancing and a
//! path-based bidirectional cursor over the leaves.

mod branch;
mod btree;
mod chunk;
mod concat;
mod cursor;
mod leaf;
mod node;
mod text;

pub use btree::lemma_concat_associative;
pub use btree::lemma_concat_info;
pub use btree::lemma_concat_len;
pub use btree::lemma_concat_traversal;
pub use btree::lemma_traversal_reads_content;
pub use btree::lemma_tree_has_a_leaf;
pub use btree::BTree;
pub use chunk::Chunk;
pub use chunk::Info;
pub use cursor::Cursor;
pub use node::BRANCH_MAX_LEN;
pub use text::LineInfo;
pub use text::TextChunk;
pub use text::TEXT_CHUNK_MAX_LEN;
