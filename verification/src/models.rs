//! The model backend contract.

use vstd::prelude::*;

use crate::error::AgentError;
use crate::types::{File, GenerationResponse, Message};

verus! {

/// A language-model backend: an opaque request/response function plus a
/// name. Implementations are supplied by users of the library; what a model
/// answers is not specified here.
pub trait LLM: Sized {
    /// Generates a response from the model for the given conversation and
    /// optional file attachments.
    fn generate(&mut self, messages: Vec<Message>, files: Option<Vec<File>>) -> Result<
        GenerationResponse,
        AgentError,
    >;

    /// Returns the model name.
    fn model_name(&self) -> &str;
}

} // verus!
