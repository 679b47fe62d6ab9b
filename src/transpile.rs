//! Backends that turn an optimized program block into target source.
pub mod backend;
pub mod c_backend;
pub mod codegen_error;
