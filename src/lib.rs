pub mod prmt;
pub mod push;
