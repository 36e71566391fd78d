//! The verified core of a terminal file finder.

pub mod actions;
pub mod binary64;
pub mod calc;
pub mod cellart;
pub mod cli;
pub mod codec;
pub mod config;
pub mod content;
pub mod display;
pub mod document_cache;
pub mod engine;
pub mod excludes;
pub mod filters;
pub mod frecency;
pub mod fusion;
pub mod health;
pub mod highlight;
pub mod images;
pub mod index;
pub mod keymap;
pub mod matcher;
pub mod number;
pub mod office;
pub mod order;
pub mod output;
pub mod pathmap;
pub mod paths;
pub mod pdf;
pub mod pdf_process;
pub mod preview;
pub mod query;
pub mod quiet;
pub mod rows;
pub mod script;
pub mod sem;
pub mod semantic;
pub mod session;
pub mod text;
pub mod theme;
pub mod tui;
pub mod walker;
pub mod watch;
