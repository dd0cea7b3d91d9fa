//! Trade construction and execution for a single native-asset-to-token swap
//! against a decentralized-exchange router.

pub mod address;
pub mod amount;
pub mod planner;
pub mod coordinator;
