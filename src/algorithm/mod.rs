pub mod sort;
pub mod symbol_table;
