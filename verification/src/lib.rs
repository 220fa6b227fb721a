//! Proxy Term: proxy settings for new terminals, written as environment
//! variables into the shell start-up file or the Windows user environment,
//! with the checks on what the user types and the judgement of a test
//! request.
pub mod text;
pub mod proxy;
pub mod shell_rc;
pub mod probe;
pub mod config;
pub mod actions;
pub mod windows_env;
