//! A backend-agnostic text classifier that delegates inference to any LLM
//! server and produces calibrated confidence scores.
//!
//! Two ways of scoring are provided:
//!
//! - multi-call completion scoring: one backend call per label, whose
//!   geometric-mean log probabilities are normalized with a stable softmax
//!   ([`classifier`]);
//! - hierarchical constrained generation: a first call constrained to all
//!   labels, and further calls constrained to one cluster of labels each, which
//!   only share out anew what the cluster has ([`adaptive`], [`evidence`],
//!   [`resolution`], [`totals`]).
//!
//! The library decides what is asked of a backend and what follows from its
//! replies. Sending requests and the arithmetic on probabilities are left to
//! the caller; probabilities travel as [`scalar::Scalar`].

use vstd::prelude::*;

pub mod adaptive;
pub mod backends;
pub mod classifier;
pub mod dataset;
pub mod dates;
pub mod evidence;
pub mod json;
pub mod label_map;
pub mod prompts;
pub mod resolution;
pub mod scalar;
pub mod scoring;
pub mod selection;
pub mod text;
pub mod totals;
pub mod trie;
pub mod types;

pub use classifier::LLMClassifier;
pub use types::{Choices, ChoicesType, ClassificationResult};

verus! {

} // verus!
