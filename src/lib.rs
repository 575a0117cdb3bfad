//! Dense matrices and the row-band protocol that splits a product `A · B`
//! between one coordinator and a group of workers.

pub mod error;
pub mod matrix;
pub mod partition;
pub mod coordinator;
pub mod worker;
pub mod text_format;
pub mod protocol;
