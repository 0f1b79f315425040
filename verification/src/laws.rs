//! What holds of the library as a whole: for every input, and between its parts.

pub mod contents;
pub mod fetched;
pub mod files;
pub mod heads;
pub mod kept;
pub mod marks;
pub mod pictures;
pub mod rendering;
pub mod requests;
pub mod saved;
pub mod sent;
pub mod stores;
pub mod tidied;
pub mod told;
pub mod words;
