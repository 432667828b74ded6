//! Verified core of a desktop client that keeps an Azure blob container in
//! sync with a local folder: the blob catalogue and its merge rules, the
//! message handling of the main screen, and the parsers for storage-account
//! credentials.

pub mod blob;
pub mod text;
pub mod credentials;
pub mod statics;
pub mod account;
pub mod container;
pub mod screen;
