//! The logic of a small HTTP server: what it makes of the bytes, the clock readings and the
//! findings that it is given, without any input or output of its own.
//!
//! - [`search`], [`text`], [`numbers`], [`path`] and [`table`] work on sequences, text,
//!   numerals, file paths and tables with text keys.
//! - [`request`], [`cookies`], [`multipart`] and [`cgi`] read requests, uploads and the output
//!   of scripts.
//! - [`status`], [`response`], [`date`] and [`pages`] make the answers.
//! - [`session`], [`config`], [`connection`], [`listen`] and [`server`] hold the state of the
//!   server and decide what it does next.
//! - [`laws`] states what holds across these modules.
pub mod cgi;
pub mod config;
pub mod connection;
pub mod cookies;
pub mod date;
pub mod laws;
pub mod listen;
pub mod multipart;
pub mod numbers;
pub mod pages;
pub mod path;
pub mod request;
pub mod response;
pub mod search;
pub mod server;
pub mod session;
pub mod status;
pub mod table;
pub mod text;
