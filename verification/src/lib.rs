pub mod board;
pub mod eval;
pub mod table;
pub mod lookup;
pub mod storage;
