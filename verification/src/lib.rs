//! In-memory text storage core for an editor: a piece-table representation
//! (immutable pieces into shared source buffers, addressed through global and
//! local coordinates) and a rope-tree representation (content-bearing nodes
//! with range-restricted traversal), together with the encoding, line-ending,
//! validation and streaming collaborators they are built on.

pub mod text;
pub mod utf16;
pub mod segmentation;
pub mod encoding;
pub mod line_ending;
pub mod validation;
pub mod piece;
pub mod descriptor;
pub mod piece_buffer;
pub mod chunk;
pub mod node;
pub mod rope_iter;
pub mod metrics;
pub mod stream;
