//! Pushing patches to peers and receiving them, with acknowledgements.
//! The network side lives with the application; the library holds the
//! messages and the decisions about retries and acknowledgements.
pub mod msg;
pub mod delivery;
