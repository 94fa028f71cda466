pub mod archive;
pub mod backup;
pub mod bytes;
pub mod cipher;
pub mod content_map;
pub mod parser;
pub mod resolver;
pub mod revision;
