//! A codec for the RESP2 wire protocol: an incremental decoder that turns a
//! receive buffer into frames, and an encoder that turns frames into bytes.
//!
//! - [`frame`]: the frames, as run-time values and as the mathematical
//!   values that the contracts speak of.
//! - [`grammar`]: the wire grammar as a function on bytes.
//! - [`reader`], [`parser`]: the cursor over received bytes and the parser
//!   that reads one frame from it; proved to compute what the grammar says.
//! - [`encoder`]: the exact bytes of a frame, and the function that writes
//!   them.
//! - [`codec`]: decoding against a receive buffer that fills up chunk by
//!   chunk, and encoding into a send buffer.
//! - [`connection`]: what a connection does with each thing that its framed
//!   stream yields.
//! - [`roundtrip`], [`locality`], [`delivery`]: the theorems. Decoding
//!   undoes encoding; a frame is decided by its own bytes alone; and what a
//!   buffer delivers does not depend on how the bytes were cut into chunks.
//! - [`decimal`], [`text`], [`limits`], [`error`]: numerals, text payloads,
//!   the bounds on what is accepted, and the failures.
//! - [`bindings`]: what is taken on trust of the code outside this crate.

pub mod bindings;
pub mod codec;
pub mod connection;
pub mod decimal;
pub mod delivery;
pub mod encoder;
pub mod error;
pub mod frame;
pub mod grammar;
pub mod limits;
pub mod locality;
pub mod parser;
pub mod reader;
pub mod roundtrip;
pub mod text;

pub use codec::RespCodec;
pub use connection::Connection;
pub use error::Error;
pub use frame::RespFrame;
pub use limits::Limits;
pub use parser::parse;
pub use reader::Reader;
