//! Verified core of the ITS-MEMORY / ITS-COIN activity directory: the text
//! wire formats, directory ranking and filtering, pin selection, host ledger
//! bookkeeping and the small parsers used around the subprocess boundary.

pub mod text;
pub mod error;
pub mod codec;
pub mod wire;
pub mod order;
pub mod directory;
pub mod pipe;
pub mod vault;
pub mod store;
pub mod coin;
pub mod gdir;
pub mod host;
pub mod digest;
pub mod witness;
pub mod epoch_map;
pub mod fetch;
pub mod mirror;
pub mod ingest;
pub mod pin;
pub mod blind;
pub mod room_timelock;
