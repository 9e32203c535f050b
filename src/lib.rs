//! Spam screening of short comments: a canonical form and fingerprint for each comment, two
//! cache tiers in front of an outside classifier, a gate on concurrent classifier calls, and the
//! decoding of the classifier's answers.
pub mod normalize;
pub mod model;
pub mod response;
pub mod cache;
pub mod classify;
