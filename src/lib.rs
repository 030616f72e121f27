//! A minimal HTTP/1.1 client library: URL splitting, request building,
//! response framing over a byte stream, and the command line.
pub mod bytes;
pub mod url;
pub mod response;
pub mod request;
pub mod round_trip;
pub mod cli;
