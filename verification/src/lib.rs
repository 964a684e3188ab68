//! Verified face analysis logic.

pub mod analyzer;
pub mod arithmetic;
pub mod binary32;
pub mod clustering;
pub mod crop;
pub mod detector;
pub mod embedder;
pub mod error;
pub mod exactness;
pub mod gender_age;
pub mod geometry;
pub mod helpers;
pub mod landmarks;
pub mod precision;
pub mod preprocess;
pub mod raster;
pub mod sampling;
pub mod session;
pub mod tensor;
pub mod text;
