//! A cycle-counting RV32I simulator with pluggable cache hierarchies.
pub mod cli;
pub mod device;
pub mod experiment;
pub mod machine;
pub mod runtime;
