//! Partitioning of a numeric input among workers, and accounting of the
//! partial results that the workers send back.
pub mod aggregate;
pub mod partition;
