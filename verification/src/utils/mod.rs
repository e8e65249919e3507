pub mod bytes;
pub mod name_serde;
