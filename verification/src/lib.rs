//! Record keeping for offensive security engagements: the actions taken, their
//! consequences and the information learnt about the target (computers,
//! addresses, software, services, ...).

pub mod action;
pub mod consequences;
pub mod event;
pub mod information;
pub mod node;
pub mod questions;
pub mod report;
pub mod software_choice;
pub mod text;

pub use text::{standardize_name, standardize_version};
