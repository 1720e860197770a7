//! Time-allotment accounting: hours logged against project codes, laid out
//! by calendar month and Sunday-to-Saturday week, with a balance per project
//! that is carried from each week into the next.

pub mod auth;
pub mod calendar;
pub mod codes;
pub mod dates;
pub mod dto;
pub mod error;
pub mod laws;
pub mod ledger;
pub mod model;
pub mod report;
pub mod table;
pub mod weeks;
