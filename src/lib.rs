pub mod hash;
pub mod path;
pub mod clones;
pub mod fs;
pub mod error_behavior;
pub mod paths;
