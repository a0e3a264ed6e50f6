//! A bidirectional codec between a JSON text subset and the MessagePack
//! binary format. One direction parses JSON text (whitespace already
//! stripped) and emits the minimal MessagePack encoding of each value; the
//! other reads MessagePack tags and prints the corresponding JSON text.

pub mod decode;
pub mod encode;
mod err;
pub mod laws;
pub mod model;
pub mod pieces;

pub use err::Error;
pub use pieces::BinPiece;
pub use pieces::TextPiece;
