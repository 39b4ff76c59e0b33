//! Retranscription of a recorded audio session: backend-agnostic segment
//! normalization, canonical JSON artifacts, atomic persistence, and the
//! orchestration state machine that ties them together.

pub mod codec;
pub mod machine;
pub mod normalize;
pub mod types;
pub mod writer;
