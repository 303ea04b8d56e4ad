//! Event ABI codec: signatures, selectors, topics and data tuples of
//! structured events, driven by a schema held as ordinary data.

pub mod decode;
pub mod encode;
pub mod error;
pub mod hash;
pub mod inverse;
pub mod laws;
pub mod record;
pub mod schema;
pub mod topics;
pub mod types;
pub mod unique;
pub mod value;
pub mod word;
