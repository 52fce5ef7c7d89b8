pub mod outcome;
pub mod pair;
pub mod resolve;
pub mod table;
