pub mod commands;
pub mod encoding;
pub mod error;
pub mod laws;
pub mod seqs;
pub mod server;
pub mod store;
pub mod toc;
