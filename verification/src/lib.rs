//! Converting EPUB books into Kobo kepubs, with verified contracts.

pub mod text;
pub mod sentences;
pub mod dom;
pub mod parse;
pub mod serialize;
pub mod wrap;
pub mod kobospan;
pub mod xml;
pub mod container;
pub mod opf;
pub mod zip_io;
pub mod convert;
pub mod paths;
pub mod jobs;
