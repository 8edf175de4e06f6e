//! A tag store for paths: a query language over key/value tags, and a store
//! of directories, files and their metadata.
pub mod text;
pub mod path;
pub mod lexeme;
pub mod args;
pub mod lex;
pub mod parse;
pub mod models;
pub mod pattern;
pub mod store;
pub mod locks;
pub mod mrucache;
pub mod lrucache;
pub mod functional;
