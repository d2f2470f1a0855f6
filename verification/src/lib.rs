//! A simulation of the classical readers-writers problem.
//!
//! Operators (readers and writers) request access to a shared resource under
//! one of three admission policies: read-preferring, write-preferring, and
//! fair service (FIFO ticket). The policies are built from a binary-semaphore
//! gate and shared counters; a reporter aggregates the lifecycle events of a
//! run into per-operator interval histories, which a Gantt renderer turns
//! into a deterministic textual timeline.

pub mod gantt;
pub mod judger;
pub mod model;
pub mod operator;
pub mod reports;
pub mod semaphore;
pub mod solutions;
pub mod text;

pub use operator::Operator;
pub use operator::OperatorParseError;
pub use operator::OperatorRole;
pub use reports::Action;
pub use reports::ProtocolError;
pub use reports::ReportMessage;
pub use reports::Reporter;
pub use reports::ReporterConfig;
pub use solutions::FairService;
pub use solutions::ReadPreferring;
pub use solutions::WritePreferring;
