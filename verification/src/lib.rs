mod text;
pub mod period;
pub mod config;
pub mod notify;
pub mod executor;
pub mod scheduler;
pub mod watch;
pub mod report;
