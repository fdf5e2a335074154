//! Decoder for credential-bearing resource manifests.
//!
//! The library models a manifest as a generic structured [`value::Value`] and
//! rewrites resources of kind `Secret` so that their base64-encoded `data`
//! entries are replaced by plaintext `stringData` entries; resources of kind
//! `List` are traversed element by element.

pub mod codec;
pub mod laws;
pub mod transform;
pub mod value;
