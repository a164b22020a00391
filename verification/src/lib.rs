//! A small subword tokenization engine.
//!
//! An [`engine::Engine`] owns a vocabulary (token string -> id) and a
//! segmentation model (byte-pair merges or wordpiece longest-prefix
//! matching).  It encodes UTF-8 text into token ids with byte offsets and
//! decodes id sequences back into readable text.  A [`registry::Registry`]
//! hands out checked integer handles to engines, so a foreign caller can
//! hold an engine without a raw pointer.

pub mod bpe;
pub mod bytes;
pub mod config;
pub mod decode;
pub mod engine;
pub mod error;
pub mod laws;
pub mod registry;
pub mod vocab;
pub mod wordpiece;
