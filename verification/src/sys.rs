//! The items of the `nix` crate that the library relies on, each with the
//! contract that the library believes of it.

use vstd::prelude::*;

use nix::sys::inotify::{AddWatchFlags, Inotify, WatchDescriptor};
use nix::sys::signal::Signal;

verus! {

/// An inotify instance of `nix`; the library only carries it.
#[verifier::external_type_specification]
#[verifier::external_body]
pub struct ExInotify(Inotify);

/// A watch descriptor of `nix`; the library only carries it, and identifies
/// it by the raw number that `WatchDescriptor::as_raw` gives.
#[verifier::external_type_specification]
#[verifier::external_body]
pub struct ExWatchDescriptor(WatchDescriptor);

/// The bits of the flag of `nix::sys::inotify::AddWatchFlags` whose name
/// is exactly `name`, or `None` when there is no such flag: the flags that
/// nix declares, with the values of `libc` on Linux (`IN_CLOSE` and
/// `IN_MOVE` are unions of two flags, `IN_ALL_EVENTS` of the twelve
/// events).
pub open spec fn inotify_flag_table(name: Seq<char>) -> Option<u32> {
    if name == "IN_ACCESS"@ {
        Some(0x0000_0001u32)
    } else if name == "IN_MODIFY"@ {
        Some(0x0000_0002u32)
    } else if name == "IN_ATTRIB"@ {
        Some(0x0000_0004u32)
    } else if name == "IN_CLOSE_WRITE"@ {
        Some(0x0000_0008u32)
    } else if name == "IN_CLOSE_NOWRITE"@ {
        Some(0x0000_0010u32)
    } else if name == "IN_OPEN"@ {
        Some(0x0000_0020u32)
    } else if name == "IN_MOVED_FROM"@ {
        Some(0x0000_0040u32)
    } else if name == "IN_MOVED_TO"@ {
        Some(0x0000_0080u32)
    } else if name == "IN_CREATE"@ {
        Some(0x0000_0100u32)
    } else if name == "IN_DELETE"@ {
        Some(0x0000_0200u32)
    } else if name == "IN_DELETE_SELF"@ {
        Some(0x0000_0400u32)
    } else if name == "IN_MOVE_SELF"@ {
        Some(0x0000_0800u32)
    } else if name == "IN_UNMOUNT"@ {
        Some(0x0000_2000u32)
    } else if name == "IN_Q_OVERFLOW"@ {
        Some(0x0000_4000u32)
    } else if name == "IN_IGNORED"@ {
        Some(0x0000_8000u32)
    } else if name == "IN_CLOSE"@ {
        Some(0x0000_0018u32)
    } else if name == "IN_MOVE"@ {
        Some(0x0000_00c0u32)
    } else if name == "IN_ONLYDIR"@ {
        Some(0x0100_0000u32)
    } else if name == "IN_DONT_FOLLOW"@ {
        Some(0x0200_0000u32)
    } else if name == "IN_ISDIR"@ {
        Some(0x4000_0000u32)
    } else if name == "IN_ONESHOT"@ {
        Some(0x8000_0000u32)
    } else if name == "IN_ALL_EVENTS"@ {
        Some(0x0000_0fffu32)
    } else {
        None
    }
}

/// Looks a flag of `AddWatchFlags` up by its exact name with
/// `AddWatchFlags::from_name` (which compares `name` with the name of each
/// declared flag, and finds nothing for an empty name) and gives back its
/// bits.
#[verifier::external_body]
pub(crate) fn inotify_flag_from_name(name: &str) -> (bits: Option<u32>)
    ensures
        bits == inotify_flag_table(name@),
{
    match AddWatchFlags::from_name(name) {
        Some(flag) => Some(flag.bits()),
        None => None,
    }
}

/// The bits of `AddWatchFlags::IN_DONT_FOLLOW` (`libc::IN_DONT_FOLLOW`,
/// 0x0200_0000 on Linux).
#[verifier::external_body]
pub(crate) fn in_dont_follow() -> (bits: u32)
    ensures
        bits == 0x0200_0000u32,
{
    AddWatchFlags::IN_DONT_FOLLOW.bits()
}

/// The bits of `AddWatchFlags::IN_IGNORED` (`libc::IN_IGNORED`, 0x8000 on
/// Linux).
#[verifier::external_body]
pub(crate) fn in_ignored() -> (bits: u32)
    ensures
        bits == 0x8000u32,
{
    AddWatchFlags::IN_IGNORED.bits()
}

/// The bits of `AddWatchFlags::IN_Q_OVERFLOW` (`libc::IN_Q_OVERFLOW`,
/// 0x4000 on Linux).
#[verifier::external_body]
pub(crate) fn in_q_overflow() -> (bits: u32)
    ensures
        bits == 0x4000u32,
{
    AddWatchFlags::IN_Q_OVERFLOW.bits()
}

/// How a signal number read from a signal descriptor is understood.
#[derive(Clone, Copy, Debug, PartialEq, Eq, Structural)]
pub enum SignalKind {
    /// `SIGHUP`.
    Hangup,
    /// `SIGCHLD`.
    ChildExited,
    /// A signal that `nix` knows, other than those two.
    Unexpected,
    /// A number that `nix` knows no signal for.
    Unknown,
}

/// How `nix::sys::signal::Signal::try_from` reads the signal number `signo`
/// (taken as an `i32`), sorted into the kinds above.
pub uninterp spec fn signal_kind_of(signo: u32) -> SignalKind;

/// Sorts a signal number with `Signal::try_from`. The contract names the
/// result, and states that signal 1 is `SIGHUP` (`libc::SIGHUP` is 1 on
/// every target); the number of `SIGCHLD` differs between architectures,
/// and the contract does not give it.
#[verifier::external_body]
pub(crate) fn classify_signal(signo: u32) -> (kind: SignalKind)
    ensures
        kind == signal_kind_of(signo),
        signo == 1 ==> kind == SignalKind::Hangup,
{
    match Signal::try_from(signo as i32) {
        Ok(Signal::SIGHUP) => SignalKind::Hangup,
        Ok(Signal::SIGCHLD) => SignalKind::ChildExited,
        Ok(_) => SignalKind::Unexpected,
        Err(_) => SignalKind::Unknown,
    }
}

} // verus!
