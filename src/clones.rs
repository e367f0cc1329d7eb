pub mod db;
pub mod file;
