//! Scoring for a word-guessing game: the per-letter feedback of a guess
//! against a secret, its base-3 code, and the codes of one guess against many
//! secrets.
pub mod batch;
pub mod code;
pub mod error;
pub mod feedback;

pub use crate::batch::{batch_codes, feedback_code, pattern_row_u16};
pub use crate::code::{base3_code_u16, decode, encode};
pub use crate::error::FeedbackError;
pub use crate::feedback::{classify, feedback_trits_core};
