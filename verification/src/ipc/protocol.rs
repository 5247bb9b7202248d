//! Messages exchanged with input-method clients.
use vstd::prelude::*;

use crate::engine::llm::ModelInfo;

verus! {

/// A message that the engine broadcasts to its connected clients.
#[derive(Debug, Clone)]
pub enum EngineMessage {
    /// Suggestions computed at once from the prefix.
    Instant(InstantResponse),
    /// Suggestions refined by the model, sent after a delay.
    Refined(RefinedResponse),
    /// The engine is shutting down; connections stop writing.
    Shutdown,
}

/// A request for completions of the text before a cursor.
#[derive(Debug, Clone)]
pub struct CompleteRequest {
    pub prefix: String,
    pub max_tokens: usize,
    pub app: String,
    pub cursor_id: String,
    pub fast_only: bool,
}

/// The instant suggestions for one cursor.
#[derive(Debug, Clone)]
pub struct InstantResponse {
    pub cursor_id: String,
    pub candidates: Vec<String>,
    pub expires_in_ms: u64,
}

/// The refined suggestions for one cursor, with the model that made them.
#[derive(Debug, Clone)]
pub struct RefinedResponse {
    pub cursor_id: String,
    pub candidates: Vec<String>,
    pub model_info: ModelInfo,
}

/// A message that a client sends to the engine.
#[derive(Debug, Clone)]
pub enum ClientMessage {
    /// Ask for completions.
    Complete(CompleteRequest),
}

} // verus!
