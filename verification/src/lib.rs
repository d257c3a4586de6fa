//! Answers to questions about a collection of documents: the documents are cut into
//! passages and kept in a vector store, and a question is answered from the passages
//! that are found for it, by a language model or without one.

pub mod auth;
pub mod chat;
pub mod config;
pub mod documents;
pub mod error;
pub mod fingerprint;
pub mod indexing;
pub mod json;
pub mod llm;
pub mod numbers;
pub mod order;
pub mod paths;
pub mod search;
pub mod status;
pub mod store;
pub mod text;
pub mod upload;
