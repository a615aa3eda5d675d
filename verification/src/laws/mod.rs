//! What holds of the library as a whole, stated over the models that its functions work by.
pub mod chunks;
pub mod connections;
pub mod cookies;
pub mod encoding;
pub mod numbers;
pub mod pages;
pub mod paths;
pub mod requests;
pub mod responses;
pub mod scripts;
pub mod sessions;
pub mod splitting;
pub mod text;
pub mod uploads;
pub mod views;
