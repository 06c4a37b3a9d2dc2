pub mod text;
pub mod config;
pub mod log;
pub mod auth;
pub mod account;
pub mod passwd;
pub mod list;
pub mod lksuers;
pub mod cli;
pub mod exec;
