//! A conversational-agent runtime core: session memory with a bounded
//! short-term cache, similarity-based re-ranking over fixed-point
//! embeddings, tool catalogs, prompt assembly under a token budget, and
//! lossless checkpoint/restore of session state.
//!
//! The memory engine and the generation pipeline are verified: every public
//! function carries a contract, and the library-wide laws (window bounds,
//! re-ranking order, cosine symmetry, checkpoint round-trip) are proved.
//! Model backends, durable stores, tools and routers are collaborators
//! behind traits.

pub mod agent;
pub mod agent_orchestrators;
pub mod catalog;
pub mod checkpoint;
pub mod error;
pub mod helpers;
pub mod memory;
pub mod models;
pub mod query;
pub mod record;
pub mod similarity;
pub mod text;
pub mod tools;
pub mod types;

pub use agent::Agent;
pub use agent_orchestrators::{CodemodeLlmAdapter, NoRouter, Router};
pub use catalog::{StaticSubAgentDirectory, StaticToolCatalog};
pub use error::AgentError;
pub use memory::{InMemoryStore, MemoryStore, SessionMemory};
pub use models::LLM;
pub use record::MemoryRecord;
pub use similarity::{cosine_similarity, mmr_rerank};
pub use tools::{NoCapability, Tool, ToolCatalog};
pub use types::{
    AgentOptions, AgentState, File, GenerationResponse, Message, Role, SubAgent,
    SubAgentDirectory, ToolRequest, ToolResponse, ToolSpec,
};
