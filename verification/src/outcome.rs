//! What can go wrong while the cache is kept in step, and what follows from
//! each failure.

use vstd::prelude::*;

verus! {

/// The ways in which a step of the synchronisation can fail.
#[derive(Clone, Copy, PartialEq, Eq, Structural, Debug)]
pub enum Failure {
    /// The source's bytes are no image that the codec can decode: a wrong
    /// format, a truncated or an empty file.
    Undecodable,
    /// The source vanished or became unreadable after it was discovered.
    SourceUnreadable,
    /// The cache directory or the artifact could not be created or written.
    CacheUnwritable,
    /// The watch on the image root could not be established.
    WatchUnavailable,
    /// The transport of the notifications ended or failed.
    ChannelClosed,
}

/// What the synchronisation does about a failure.
#[derive(Clone, Copy, PartialEq, Eq, Structural, Debug)]
pub enum Policy {
    /// The file is left without an artifact and the work goes on with the
    /// next one.
    SkipFile,
    /// The failure is fatal: the work ends at once.
    Abort,
    /// The cache is no longer kept up to date; what it holds stays in use.
    StopWatching,
}

/// The policy for each failure.
pub open spec fn policy_of(failure: Failure) -> Policy {
    match failure {
        Failure::Undecodable => Policy::SkipFile,
        Failure::SourceUnreadable => Policy::SkipFile,
        Failure::CacheUnwritable => Policy::Abort,
        Failure::WatchUnavailable => Policy::Abort,
        Failure::ChannelClosed => Policy::StopWatching,
    }
}

/// The policy for `failure`.
pub fn policy(failure: Failure) -> (p: Policy)
    ensures
        p == policy_of(failure),
{
    match failure {
        Failure::Undecodable => Policy::SkipFile,
        Failure::SourceUnreadable => Policy::SkipFile,
        Failure::CacheUnwritable => Policy::Abort,
        Failure::WatchUnavailable => Policy::Abort,
        Failure::ChannelClosed => Policy::StopWatching,
    }
}

/// How one invocation of the codec ended.
#[derive(Clone, Copy, PartialEq, Eq, Structural, Debug)]
pub enum Outcome {
    /// The artifact was written.
    Written,
    /// No artifact was written.
    Failed(Failure),
}

/// Whether the work goes on with the next file after an invocation of the
/// codec that ended in `outcome`: after a success, and after a failure that
/// costs only the one file.
pub open spec fn passes(outcome: Outcome) -> bool {
    match outcome {
        Outcome::Written => true,
        Outcome::Failed(failure) => policy_of(failure) == Policy::SkipFile,
    }
}

/// Whether the work goes on with the next file after `outcome`.
pub fn goes_on(outcome: Outcome) -> (b: bool)
    ensures
        b == passes(outcome),
{
    match outcome {
        Outcome::Written => true,
        Outcome::Failed(failure) => match policy(failure) {
            Policy::SkipFile => true,
            _ => false,
        },
    }
}

} // verus!
