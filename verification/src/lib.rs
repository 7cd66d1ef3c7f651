//! A Secret Santa exchange: users register, form groups, and closing a group
//! links every member to exactly one recipient along a single random cycle.
//!
//! `database` holds the operations of the service and `service` says what each
//! of them does to the tables; `rules` decides who may do what; `assignment`
//! turns an order of the members into pairings; `storage` keeps the rows and
//! `tables` describes them; `laws` states what holds whatever the requests are.

pub mod assignment;
pub mod database;
pub mod errors;
pub mod json_models;
pub mod laws;
pub mod models;
pub mod rules;
pub mod service;
pub mod storage;
pub mod tables;
