//! A small, embeddable grammar engine.
//!
//! A grammar written in Backus-Naur form turns a flat string into a labeled
//! token tree, and registered per-label callbacks fold that tree back into an
//! output string.

pub mod backus_naur_form;

pub use backus_naur_form::symbol::Symbol;
pub use backus_naur_form::token::non_terminal_token::NonTerminalToken;
pub use backus_naur_form::token::TerminalToken;
pub use backus_naur_form::token::Token;
