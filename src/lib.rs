pub mod date;
pub mod header;
pub mod launch;
