//! Shutdown flag and child exit reasons for nulld.
use vstd::prelude::*;
use std::sync::atomic::AtomicBool;
use std::sync::atomic::Ordering;
use crate::text::push_signed_decimal;

verus! {

/// Whether shutdown has been requested.  The flag is set asynchronously by
/// the SIGTERM/SIGINT handler, so nothing is promised of the value read.
pub fn shutdown_requested(flag: &AtomicBool) -> bool {
    flag.load(Ordering::SeqCst)
}

/// How a child process ended.
#[derive(Debug, Clone, Copy, PartialEq, Eq, Structural)]
pub enum ExitReason {
    /// The process exited with this status code.
    Exited(i32),
    /// The process was killed by this signal number.
    Signaled(i32),
}

/// The text describing an exit reason.
pub open spec fn exit_reason_text(r: ExitReason) -> Seq<char> {
    match r {
        ExitReason::Exited(code) => "exited with code "@ + crate::text::signed_decimal(code as int),
        ExitReason::Signaled(sig) => "killed by signal "@ + crate::text::signed_decimal(sig as int),
    }
}

impl ExitReason {
    /// `"exited with code <code>"` or `"killed by signal <sig>"`.
    pub fn to_string(&self) -> (s: String)
        ensures
            s@ == exit_reason_text(*self),
    {
        match self {
            ExitReason::Exited(code) => {
                let mut s = String::from_str("exited with code ");
                push_signed_decimal(&mut s, *code as i64);
                s
            },
            ExitReason::Signaled(sig) => {
                let mut s = String::from_str("killed by signal ");
                push_signed_decimal(&mut s, *sig as i64);
                s
            },
        }
    }
}

} // verus!
