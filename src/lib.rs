pub mod batch;
pub mod extensions;
pub mod listing;
pub mod names;
pub mod order;
pub mod rename;
pub mod requests;
pub mod text;
