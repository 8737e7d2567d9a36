//! Error taxonomy for the agent framework.
//!
//! Every failure is returned to the immediate caller as one of these typed
//! variants; nothing is swallowed and there is no generic catch-all default.

use vstd::prelude::*;

verus! {

/// Error kinds raised by the agent framework.
#[derive(Debug, Clone)]
pub enum AgentError {
    /// A model backend failed.
    ModelError(String),
    /// A memory or durability operation failed.
    MemoryError(String),
    /// A tool failed, or was registered badly.
    ToolError(String),
    /// Required setup is missing.
    ConfigError(String),
    /// A checkpoint could not be encoded or decoded.
    SerializationError(String),
    /// An input/output operation failed.
    IoError(String),
    /// The tool-calling transport failed.
    UtcpError(String),
    /// No agent is registered under the given name.
    AgentNotFound(String),
    /// No tool is registered under the given name.
    ToolNotFound(String),
    /// An operation was attempted in an invalid state.
    InvalidState(String),
    /// Any other failure, wrapped with context.
    Other(String),
    /// Encoding a response in the compact transport form failed.
    ToonFormatError(String),
}

impl AgentError {
    /// The message carried by the error.
    pub fn message(&self) -> (m: &String)
        ensures
            m@ == self.text(),
    {
        match self {
            AgentError::ModelError(m) => m,
            AgentError::MemoryError(m) => m,
            AgentError::ToolError(m) => m,
            AgentError::ConfigError(m) => m,
            AgentError::SerializationError(m) => m,
            AgentError::IoError(m) => m,
            AgentError::UtcpError(m) => m,
            AgentError::AgentNotFound(m) => m,
            AgentError::ToolNotFound(m) => m,
            AgentError::InvalidState(m) => m,
            AgentError::Other(m) => m,
            AgentError::ToonFormatError(m) => m,
        }
    }

    /// The message carried by the error, as a character sequence.
    pub open spec fn text(&self) -> Seq<char> {
        match self {
            AgentError::ModelError(m) => m@,
            AgentError::MemoryError(m) => m@,
            AgentError::ToolError(m) => m@,
            AgentError::ConfigError(m) => m@,
            AgentError::SerializationError(m) => m@,
            AgentError::IoError(m) => m@,
            AgentError::UtcpError(m) => m@,
            AgentError::AgentNotFound(m) => m@,
            AgentError::ToolNotFound(m) => m@,
            AgentError::InvalidState(m) => m@,
            AgentError::Other(m) => m@,
            AgentError::ToonFormatError(m) => m@,
        }
    }
}

} // verus!
