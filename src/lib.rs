//! Host-side core of a sandboxed module runtime: handle-addressed exchange
//! buffers, the binary header-map wire format, a key/value persistence facade,
//! a method and path route table, and the per-invocation dispatcher.

pub mod base64;
pub mod blobs;
pub mod buffers;
pub mod bytes;
pub mod codec;
pub mod dispatch;
pub mod entries;
pub mod error;
pub mod persistence;
pub mod routes;
pub mod runtime;
pub mod text;
pub mod upload;
pub mod watchdog;
