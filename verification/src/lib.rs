pub mod database;
pub mod decoder;
pub mod encryption;
pub mod error;
pub mod password;
pub mod text;
