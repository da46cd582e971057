//! A structured-document pipeline: a structural and inline parser that turns
//! lightweight-markup prose into a typed document tree, a per-language
//! vectorizer, and an edit-distance similarity engine that ranks every
//! document against the others in its language partition.
#![verifier::loop_isolation(false)]

pub mod article;
pub mod config;
pub mod fingerprint;
pub mod inline;
pub mod plaintext;
pub mod quote;
pub mod similar;
pub mod split;
pub mod text;
pub mod vectorize;
