pub mod config;
pub mod laws;
pub mod error;
pub mod resolve;
pub mod schedule;
pub mod task;
pub mod utils;

pub use config::Config;
pub use error::TaskRunnerError;
pub use task::{ExecutionMode, Task};
