//! Verified core of a cross-border price-oracle contract: corridor-rate
//! statistics, median aggregation of validator submissions, progressive
//! slashing of validator bonds, corridor fee accrual and governance checks.

pub mod auth;
pub mod error;
pub mod fees;
pub mod governance;
pub mod host;
pub mod math;
pub mod median;
pub mod reentrancy;
pub mod slashing;
