pub mod locate;
pub mod parser;
pub mod text;
