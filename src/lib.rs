pub mod driver;
pub mod matcher;
pub mod parser;
pub mod pattern;
pub mod text;
