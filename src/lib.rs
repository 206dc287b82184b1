//! Content digests of large objects, AWS-style composite (multipart)
//! digests, and manifests of digests that can be merged and grouped.

pub mod aws_etag;
pub mod check;
pub mod copy;
pub mod ctx;
pub mod digest;
pub mod error;
pub mod laws;
pub mod schedule;
pub mod size_literal;
pub mod sums;
pub mod text;
