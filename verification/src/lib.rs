//! A DNS-based failover load balancer's core: targets are probed on a fixed
//! interval, an availability state machine decides which of them stay
//! advertised — never withdrawing a DNS name's last record — and the remote
//! zone is reconciled idempotently to match.

pub mod config;
pub mod decimal;
pub mod health_checker;
pub mod models;
pub mod probe;
pub mod reconcile;
