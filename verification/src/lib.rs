//! Signs a PDF by appending an incremental update that carries a detached
//! PKCS#7 signature.
//!
//! The layout of the update is fixed before anything is signed: the
//! signature dictionary is written with placeholders of fixed width for the
//! byte range, the signing date and the signature itself, and each of them
//! is later overwritten in place, so that no offset moves.

pub mod assembler;
pub mod backend;
pub mod byterange;
pub mod bytes;
pub mod certificate;
pub mod decimal;
pub mod error;
pub mod injector;
pub mod landmarks;
pub mod laws;
pub mod lemmas;
pub mod markers;
pub mod pem;
pub mod probe;
pub mod scanner;
pub mod sequences;
pub mod signature_config;
pub mod signer;
