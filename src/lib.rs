//! Session layer of a spell-checking language server: coordinate conversion,
//! diagnostic encoding and decoding, folder routing and session state.

pub mod position;
pub mod text;
pub mod diagnostics;
pub mod router;
pub mod session;
