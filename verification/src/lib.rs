//! Core library of a paginated-document reader: a bounded document pool,
//! content-space to normalized-space geometry, per-page text-layer queries,
//! and Unicode-aware word/sentence segmentation for read-aloud highlighting.
use vstd::prelude::*;

pub mod cbz;
pub mod covers;
pub mod crop;
pub mod docx;
pub mod errors;
pub mod geometry;
pub mod library;
pub mod pool;
pub mod render;
pub mod strutil;
pub mod text_layer;
pub mod tts_text;
pub mod validate;

verus! {

/// Greeting used by the host layer to confirm the library is linked.
pub fn hello_world() -> (r: String)
    ensures
        r@ == "Hello from Rust!"@,
{
    String::from_str("Hello from Rust!")
}

/// Confirmation string for the document subsystem.
pub fn test_pdf_module() -> (r: String)
    ensures
        r@ == "PDF module loaded successfully"@,
{
    String::from_str("PDF module loaded successfully")
}

} // verus!
