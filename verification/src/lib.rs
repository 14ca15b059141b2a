//! Access control and model-reply handling of the NylonME memory engine.

pub mod access;
pub mod chat;
pub mod error;
pub mod json;
pub mod keyfile;
pub mod keys;
pub mod loose;
pub mod scan;
pub mod scope;
pub mod settings;
pub mod text;
