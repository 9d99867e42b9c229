//! String and array helpers of the Nscript language.
pub mod arrays;
pub mod bindings;
pub mod encryption;
pub mod functions;
pub mod laws;
pub mod nstring;
pub mod order;
pub mod text;
