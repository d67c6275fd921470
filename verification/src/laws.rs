//! Properties of the library as a whole, stated over the specifications
//! that the functions' contracts use.

pub mod aggregation;
pub mod order;
pub mod records;
pub mod selection;
pub mod text_forms;
