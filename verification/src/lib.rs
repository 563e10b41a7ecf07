pub mod amount;
pub mod category;
pub mod config;
pub mod date;
pub mod parser;
pub mod repo;
pub mod transfer;
pub mod transfer_service;
pub mod text;
