pub mod cli;
pub mod commands;
pub mod extension;
pub mod lsp;
pub mod marks;
pub mod matcher;
