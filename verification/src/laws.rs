//! What holds of the library as a whole, over all inputs: what goes in at one
//! end comes out at the other.

pub mod binding;
pub mod capturing;
pub mod dump;
pub mod format;
pub mod legacy;
pub mod log;
pub mod requests;
pub mod rows;
pub mod sequences;
pub mod served;
pub mod statements;
pub mod settings;
pub mod streams;
pub mod values;
pub mod views;
