//! A filesystem change-notification multiplexer with a verified core.
//!
//! Watch requests name a directory, a target (an exact file name or the
//! wildcard `"*"`), and a set of change kinds. The registry consolidates
//! the requests so that one directory-level OS watch, carrying the union
//! of all requested kinds, serves every target under that directory, and
//! raw directory events are demultiplexed back to the registrations that
//! justify them.

pub mod cloud;
pub mod fs_notify;
pub mod http_proxy;
