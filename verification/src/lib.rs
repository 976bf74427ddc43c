//! Per-client request counting for a small HTTP service.
//!
//! [`AppState`] holds how many requests each client address has made. A
//! request path counts each request with [`AppState::increment_ip_count`]; a
//! reporter reads the counts with [`AppState::get_sorted_ip_counts`] or as
//! text with [`AppState::format_ip_stats`]. The state is plain data: a
//! service that shares it between tasks puts it behind a lock of its own.
//!
//! - [`address`]: client addresses as integers, and their order.
//! - [`ranking`]: the order of a report, and sorting into it.
//! - [`text`]: numbers and addresses as text.
//! - [`report`]: the text of a report, and the reply to a liveness probe.
//! - [`state`]: the counts, and what holds of them.

pub mod address;
pub mod ranking;
pub mod report;
pub mod state;
pub mod text;

pub use address::IpAddress;
pub use state::AppState;
