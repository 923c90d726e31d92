//! Apple Journal operations, independent of terminal output and storage access.
pub mod text;
pub mod markdown;
pub mod model;
pub mod query;
pub mod mcp;
pub mod presentation;
pub mod response;
pub mod read;
pub mod paths;
pub mod cli;
pub mod store;
pub mod codec;
pub mod input;
pub mod mutation;
pub mod export;
pub mod assets;
