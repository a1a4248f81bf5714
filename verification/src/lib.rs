//! Verified reader for the Needle 2 `.cact` model format, its tokenizer, and
//! the integer-level parts of the Needle 2 inference pipeline.

pub mod blocks;
pub mod engram;
pub mod error;
pub mod float_bits;
pub mod greedy;
pub mod le_bytes;
pub mod model;
pub mod round_trip;
pub mod tensor;
pub mod text;
pub mod tokenizer;
pub mod tools;

pub use engram::engram_indices;
pub use error::CactError;
pub use greedy::GreedyDecoder;
pub use model::{aligned_directory_end, CactModel, ModelHeader, TensorRecord};
pub use tensor::{CqLayout, TensorData};
pub use tokenizer::{Tokenizer, TokenizerPiece};
pub use tools::{decode_tool_calls, render_tool_prompt};
