//! A PDF text/table/image extraction core: a streaming COS parser, stream
//! filters, encryption support and the byte encoders used for image output.

pub mod error;
pub mod lex;
pub mod object;
pub mod numeric;
pub mod cos;
pub mod filter;
pub mod encode;
pub mod crypt;
pub mod agl;
pub mod cmap;
pub mod content;
pub mod objstm;
pub mod resolver;
pub mod image;
pub mod font;
pub mod xref;
pub mod doc;
pub mod pagetree;
pub mod tables;
pub mod serialize;
pub mod layout;
pub mod mcp;
