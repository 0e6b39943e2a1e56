//! An HTTP/1.1 request/response engine over raw byte streams: framing of the
//! incoming stream (`reader`), decoding of requests (`request`), and wire
//! encoding of replies (`response`), with the decisions of a static-file
//! handler (`handler`). Connections, files and the event loop live outside
//! this library.
pub mod text;
pub mod byte_map;
pub mod request;
pub mod response;
pub mod reader;
pub mod handler;
