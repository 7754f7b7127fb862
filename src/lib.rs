//! Incremental decoding of MIME multipart byte streams (such as
//! `multipart/x-mixed-replace` camera feeds): bytes arrive in chunks of any size, and
//! parts (a header block and a body) come out as soon as they are complete.

pub mod buffer;
mod error;
pub mod header_map;
pub mod media;
pub mod multipart;
pub mod parser;
pub mod part;
pub mod search;

pub use error::Error;
pub use header_map::HeaderMap;
pub use multipart::{MultipartDecoder, SourceEvent, Step, DEFAULT_BUFFER_CAP};
pub use part::{parse_header_line, Part};
