//! Verified core of a daemon that watches files with inotify and runs a
//! script for every event on a watched object.

use vstd::prelude::*;

pub mod args;
pub mod config;
pub mod daemon;
pub mod logger;
pub mod sys;
pub mod walk;
pub mod watch;

verus! {

/// Epoll token under which the inotify descriptor is registered.
pub const INOTIFY_EPOLL_TOKEN: u64 = 0;

/// Epoll token under which the signal descriptor is registered.
pub const SIGNAL_EPOLL_TOKEN: u64 = 1;

/// Number of epoll events fetched per wait.
pub const EPOLL_BUF_LEN: usize = 2;

} // verus!
