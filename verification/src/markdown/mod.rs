pub mod document;
pub mod events;
pub mod options;
pub mod plaintext;
pub mod slug;
pub mod statistics;
