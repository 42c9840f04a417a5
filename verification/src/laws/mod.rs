//! What holds of the library as a whole.
pub mod address;
pub mod candidates;
pub mod keys;
pub mod order;
pub mod phrases;
pub mod reading;
pub mod search;
pub mod slots;
pub mod text;
pub mod words;
