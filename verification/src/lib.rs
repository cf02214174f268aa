//! Persistence core of a small voice-profile catalog: the collection
//! operations over voice records, the JSON file format the catalog is stored
//! in, the collision-avoiding naming of saved audio files, and the decoding
//! of base64 audio payloads.

pub mod b64;
pub mod errors;
pub mod json;
pub mod naming;
pub mod store;
pub mod voice;
mod text;

pub use voice::Voice;
