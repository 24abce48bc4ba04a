//! Text transformation and invocation policy for driving a command-line
//! agent as a language-model provider.

pub mod attachment;
pub mod instructions;
pub mod prompt;
pub mod provider;
pub mod sanitize;
pub mod text;
