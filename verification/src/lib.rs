//! Semantic search of code: from source files to the chunks that answer a
//! query.

pub mod chunk;
pub mod decimal;
pub mod index;
pub mod output;
pub mod project;
pub mod provider;
pub mod ranking;
pub mod scope;
pub mod score;
pub mod search;
pub mod settings;
pub mod span;
pub mod split;
pub mod store;
pub mod syntax;
pub mod text;
pub mod tokens;
pub mod tool;
pub mod topology;
pub mod wide;
