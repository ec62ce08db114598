//! Codec for the binary "message" resources of the 3DS Pokémon Mystery
//! Dungeon games: a Sir0-wrapped table of texts keyed by 32-bit hashes,
//! together with a keyword codec that renders special control code-points
//! as bracketed, human-readable tokens and back.

pub mod codec;
pub mod codetable;
pub mod keyword;
pub mod sir0;
pub mod store;
pub mod wide;

pub use keyword::MessageKeyword;
pub use keyword::MessageKeywordEncodeError;
pub use store::MessageBin;
pub use codec::{MessageBinReadError, MessageBinWriteError};
