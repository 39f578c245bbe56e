//! Decisions of a small init system: configuration checks, dependency
//! ordering of services, restart back-off and the supervisor's state machine.
//!
//! Everything here is plain computation on plain values; reading files,
//! spawning processes, waiting for children and sending signals belong to the
//! program that drives the library.

pub mod config;
pub mod deps;
pub mod runtime;
pub mod service;
pub mod supervisor;
pub mod text;
pub mod trace;

pub use config::{check_config, validate_config, Config, ConfigError};
pub use deps::{provided_tokens, resolve_start_order, DepsError};
pub use runtime::{has_pending_restarts, ExitOutcome, RunningChild, ServiceRuntime, Supervisor, SHUTDOWN_TIMEOUT_NS};
pub use service::{
    command_line, default_respawn_delay_secs, default_respawn_window_secs, default_restart_policy,
    RestartPolicy, ServiceConfig, SpawnError,
};
pub use supervisor::{next_restart_delay, should_restart, ChildStatus, NANOS_PER_SEC};
pub use text::{debug_value_enabled, is_blank};
