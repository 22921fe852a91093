pub mod cli;
pub mod clock;
pub mod entry;
pub mod output;
pub mod parser;
pub mod path;
pub mod record;
pub mod search;
pub mod shell;
pub mod text;
