//! A verified wallet service: named, credential-protected key/value
//! containers selected by a pluggable backend type, managed through a
//! create / open / use-by-handle / close / delete lifecycle.

pub mod descriptor;
pub mod errors;
pub mod laws;
pub mod paths;
pub mod service;
