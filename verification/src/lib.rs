//! An event-sourced record of a company's departments and employees.
//!
//! The [`Company`] aggregate keeps departments and employees in memory,
//! validates business rules, and buffers domain events until a repository
//! flushes them to storage.

pub mod company;
pub mod domain;
pub mod ident;
pub mod report;
pub mod store;
pub mod text;

pub use company::Company;
