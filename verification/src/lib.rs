//! Encoding of model predictions as vectors, and search over the encoded vectors.
//!
//! Numbers are [`Binary64`] values: IEEE 754 double precision numbers held by their bit pattern,
//! with verified arithmetic.

pub mod accuracy;
pub mod arithmetic;
pub mod arithmetic_laws;
pub mod batch;
pub mod batch_laws;
pub mod binary64;
pub mod cosine_laws;
pub mod distance_laws;
pub mod encoder;
pub mod encoding_laws;
pub mod number_laws;
pub mod output;
pub mod proportion;
pub mod range_laws;
pub mod ranking;
pub mod record_laws;
pub mod rounding;
pub mod scaling_laws;
pub mod search_laws;
pub mod sequence_laws;
pub mod sequences;
pub mod similarity_laws;
pub mod stamp;
pub mod statistics_laws;
pub mod triangle_laws;
pub mod vector;

pub use batch::{PredBatchStats, PredictionBatch};
pub use binary64::Binary64;
pub use encoder::{PredEncodingMethod, PredictionEncoder};
pub use output::{PredictionOutput, PredictionType};
pub use stamp::VectorId;
pub use vector::PredictionVector;
