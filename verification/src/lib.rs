pub mod error;
pub mod float_bits;
pub mod gaussian;
pub mod io;
pub mod stream;
pub mod text;
pub mod viewer;
