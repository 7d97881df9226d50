//! Line-level diffs with context ("ffwx"): an LCS-based edit script whose
//! entries carry the lines around each change, a textual encoding of the
//! script in a human-readable and a compact layout, the reading back of the
//! compact layout, and the reconstruction of the modified file from the
//! source and a script.
pub mod context;
pub mod engine;
pub mod codec;
pub mod decode;
pub mod reconstruct;
