//! A contact-record store: named entries (name, phone number, email) that can
//! be added, updated, looked up, listed with pagination, deleted, and exported
//! or imported in bulk. The store keeps its records in ascending lexicographic
//! order of name, and every operation carries a contract over that model.

pub mod contacts_service;
pub mod errors;
pub mod models;
pub mod ordering;
pub mod patterns;
pub mod repositories;
pub mod store;
