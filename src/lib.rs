//! A small upload client: it walks directory trees, frames each file as a
//! multipart/form-data body, and serialises HTTP/1.1 requests byte for byte.
pub mod bytes;
pub mod decimal;
pub mod http;
pub mod multipart;
pub mod upload;
pub mod walker;
