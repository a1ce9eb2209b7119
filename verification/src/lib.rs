//! Analysis of web-server access logs: a verified parser for the Combined Log
//! Format and the reports built on it (summary, top clients, status codes and
//! filtered requests).
pub mod cli;
pub mod commands;
pub mod ipkey;
pub mod laws;
pub mod text;
