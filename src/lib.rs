//! A durable store of named editor profiles.
//!
//! The library holds the logic: the record type, the file codec, and the
//! store's decisions on open, add and remove. Reading and writing the backing
//! file is left to the caller, which hands the store the bytes it read and
//! writes the bytes that the store hands back.
pub mod codec;
pub mod profile;
pub mod store;
