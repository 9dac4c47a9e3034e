//! Inference engine backends: what each is configured with, what it is sent,
//! and how its replies are read.
//!
//! - [`OllamaBackend`]: native Ollama API
//! - [`VLLMBackend`]: vLLM (OpenAI-compatible, `structured_outputs.choice`)
//! - [`SGLangBackend`]: SGLang (OpenAI-compatible, `regex`)
//! - [`LlamaCppBackend`]: llama.cpp / `llama-server` (OpenAI-compatible, GBNF
//!   `grammar`)

pub mod base;
pub mod llamacpp;
pub mod ollama;
pub mod openai_compat;
pub mod sglang;
pub mod vllm;

pub use base::{ChatMessage, ChatResponse, ScoringResponse, Token, TokenLogprob};
pub use llamacpp::LlamaCppBackend;
pub use ollama::OllamaBackend;
pub use sglang::SGLangBackend;
pub use vllm::VLLMBackend;
