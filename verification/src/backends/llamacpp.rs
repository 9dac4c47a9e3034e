//! llama.cpp inference backend.
//!
//! `llama-server` exposes an OpenAI-compatible API and constrains output to a
//! label set with a GBNF `grammar`. It has no echo, so completions are scored
//! by forced generation.

use crate::backends::base;
use crate::backends::openai_compat;
use crate::backends::openai_compat::{
    BoundaryStrategy, Constraint, OpenAICompatCore, OpenAICompatCoreBuilder,
};
use serde_json::Value;
use std::time::Duration;
use vstd::prelude::*;

verus! {

/// Default llama.cpp base URL.
pub const DEFAULT_BASE_URL: &'static str = "http://localhost:8080/v1";

/// Backend for a llama.cpp inference server.
#[derive(Debug)]
pub struct LlamaCppBackend {
    pub core: OpenAICompatCore,
}

impl LlamaCppBackend {
    /// A backend with the defaults for `model` at `base_url`.
    pub open spec fn has_defaults(self, model: Seq<char>, base_url: Seq<char>) -> bool {
        &&& self.core.model@ == model
        &&& self.core.base_url@ == base::without_slashes(base_url)
        &&& self.core.api_key@ == openai_compat::DEFAULT_API_KEY@
        &&& self.core.timeout == openai_compat::whole_seconds(openai_compat::DEFAULT_TIMEOUT_SECS)
        &&& self.core.max_tokens == openai_compat::DEFAULT_MAX_TOKENS
        &&& self.core.extra_body@ == Map::<Seq<char>, Value>::empty()
        &&& self.core.constraint == Constraint::Grammar
        &&& self.core.boundary == BoundaryStrategy::Forced
    }

    /// Create a new llama.cpp backend pointed at the default URL.
    pub fn new(model: &str) -> (r: Self)
        ensures
            r.has_defaults(model@, DEFAULT_BASE_URL@),
    {
        Self::with_config(model, DEFAULT_BASE_URL)
    }

    /// Create a llama.cpp backend with a custom base URL.
    pub fn with_config(model: &str, base_url: &str) -> (r: Self)
        ensures
            r.has_defaults(model@, base_url@),
    {
        Self::builder(model, base_url).build()
    }

    /// Create a builder for fine-grained configuration.
    pub fn builder(model: &str, base_url: &str) -> (r: LlamaCppBackendBuilder)
        ensures
            r.inner.model@ == model@,
            r.inner.base_url@ == base_url@,
            r.inner.api_key@ == openai_compat::DEFAULT_API_KEY@,
            r.inner.timeout == openai_compat::whole_seconds(openai_compat::DEFAULT_TIMEOUT_SECS),
            r.inner.max_tokens == openai_compat::DEFAULT_MAX_TOKENS,
            r.inner.extra_body@ == Map::<Seq<char>, Value>::empty(),
            r.inner.constraint == Constraint::Grammar,
            r.inner.boundary == BoundaryStrategy::Forced,
    {
        LlamaCppBackendBuilder {
            inner: OpenAICompatCoreBuilder::new(
                model,
                base_url,
                Constraint::Grammar,
                BoundaryStrategy::Forced,
            ),
        }
    }

    /// The model identifier.
    pub fn model(&self) -> (r: &str)
        ensures
            r@ == self.core.model@,
    {
        self.core.model.as_str()
    }

    /// The base URL of the inference server.
    pub fn base_url(&self) -> (r: &str)
        ensures
            r@ == self.core.base_url@,
    {
        self.core.base_url.as_str()
    }

    /// A chat reply holds the bare label text.
    pub fn supports_bare_label_constraint(&self) -> (r: bool)
        ensures
            r,
    {
        true
    }
}

/// Builder for [`LlamaCppBackend`].
#[derive(Debug)]
pub struct LlamaCppBackendBuilder {
    pub inner: OpenAICompatCoreBuilder,
}

impl LlamaCppBackendBuilder {
    /// Set the API key. Defaults to `"not-needed"`.
    pub fn api_key(self, key: &str) -> (r: Self)
        ensures
            r.inner.api_key@ == key@,
            r.inner == (OpenAICompatCoreBuilder { api_key: r.inner.api_key, ..self.inner }),
    {
        LlamaCppBackendBuilder { inner: self.inner.api_key(key) }
    }

    /// Set the request timeout. Defaults to 120s.
    pub fn timeout(self, timeout: Duration) -> (r: Self)
        ensures
            r.inner == (OpenAICompatCoreBuilder { timeout, ..self.inner }),
    {
        LlamaCppBackendBuilder { inner: self.inner.timeout(timeout) }
    }

    /// Set the maximum tokens to generate. Defaults to 256.
    pub fn max_tokens(self, max_tokens: u32) -> (r: Self)
        ensures
            r.inner == (OpenAICompatCoreBuilder { max_tokens, ..self.inner }),
    {
        LlamaCppBackendBuilder { inner: self.inner.max_tokens(max_tokens) }
    }

    /// Add an extra parameter merged into every request body.
    pub fn extra_body(self, key: &str, value: Value) -> (r: Self)
        ensures
            r.inner.extra_body@ == self.inner.extra_body@.insert(key@, value),
            r.inner == (OpenAICompatCoreBuilder { extra_body: r.inner.extra_body, ..self.inner }),
    {
        LlamaCppBackendBuilder { inner: self.inner.extra_body(key, value) }
    }

    /// Build the [`LlamaCppBackend`].
    pub fn build(self) -> (r: LlamaCppBackend)
        ensures
            r.core.model == self.inner.model,
            r.core.base_url@ == base::without_slashes(self.inner.base_url@),
            r.core.api_key == self.inner.api_key,
            r.core.timeout == self.inner.timeout,
            r.core.max_tokens == self.inner.max_tokens,
            r.core.extra_body == self.inner.extra_body,
            r.core.constraint == self.inner.constraint,
            r.core.boundary == self.inner.boundary,
    {
        LlamaCppBackend { core: self.inner.build() }
    }
}

/// A backend with the defaults sends what it was given to the address it was
/// given, with the constraint and the way of scoring of its kind of server, and
/// adds nothing to a request.
pub proof fn law_defaults_of_the_backend(
    backend: LlamaCppBackend,
    model: Seq<char>,
    base_url: Seq<char>,
    key: Seq<char>,
)
    requires
        backend.has_defaults(model, base_url),
    ensures
        backend.core.model@ == model,
        backend.core.base_url@.is_prefix_of(base_url),
        backend.core.base_url@.len() > 0 ==> backend.core.base_url@.last() != '/',
        backend.core.api_key@ == "not-needed"@,
        backend.core.max_tokens == 256,
        backend.core.timeout == openai_compat::whole_seconds(120),
        backend.core.constraint is Grammar,
        backend.core.boundary is Forced,
        !backend.core.extra_body@.contains_key(key),
{
    base::law_normalized_url(base_url);
}

} // verus!
