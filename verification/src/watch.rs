//! The event watcher: after the reconciling pass, every file that is
//! created below the image root gets its thumbnail, without a look into the
//! cache.
//!
//! The watcher is a machine with three phases. Armed, it waits for a
//! notification; processing, it waits for the codec to end; stopped, it has
//! given up watching for good. Its driver owns the subscription and the
//! queue of notifications, and hands the watcher one signal at a time.
//!
//! A file that is created takes the cache path of any earlier source with
//! the same stem in the same directory: the later artifact replaces the
//! earlier one.

use crate::outcome::{goes_on, passes, Outcome};
use crate::path::{cache_path, map_to_cache, relative, relative_to};
use crate::reconcile::{Job, JobModel};
use vstd::prelude::*;

verus! {

/// What a creation event says about the node that was created.
#[derive(Clone, Copy, PartialEq, Eq, Structural, Debug)]
pub enum CreateKind {
    /// The source of the notifications does not say what was created.
    Any,
    /// A regular file.
    File,
    /// A directory.
    Folder,
    /// Something else.
    Other,
}

/// The kind of a file system event.
#[derive(Clone, Copy, PartialEq, Eq, Structural, Debug)]
pub enum EventKind {
    /// Something was created.
    Create(CreateKind),
    /// Anything but a creation: an access, a change, a removal.
    Other,
}

/// Which creation events the watcher takes up.
#[derive(Clone, Copy, PartialEq, Eq, Structural, Debug)]
pub enum Granularity {
    /// Every creation event, whatever it says was created. A directory
    /// that was created then reaches the codec, which fails to decode it.
    AnyCreation,
    /// Only the events that say a regular file was created.
    FileCreation,
}

/// A notification of the file system: its kind and the paths it is about.
#[derive(Clone, PartialEq, Eq, Debug)]
pub struct WatchEvent {
    pub kind: EventKind,
    pub paths: Vec<Vec<u8>>,
}

/// A notification, as the contracts see it.
pub struct EventModel {
    pub kind: EventKind,
    pub paths: Seq<Seq<u8>>,
}

impl View for WatchEvent {
    type V = EventModel;

    open spec fn view(&self) -> EventModel {
        EventModel { kind: self.kind, paths: self.paths@.map_values(|p: Vec<u8>| p@) }
    }
}

/// The phases of the watcher.
#[derive(Clone, Copy, PartialEq, Eq, Structural, Debug)]
pub enum Phase {
    /// Subscribed, and waiting for the next notification.
    Armed,
    /// A job is with the codec.
    Processing,
    /// The watcher has stopped for good.
    Stopped,
}

/// What the driver hands the watcher.
#[derive(Clone, PartialEq, Eq, Debug)]
pub enum Signal {
    /// A notification arrived.
    Notified(WatchEvent),
    /// The codec has ended on the job that the watcher asked for.
    Completed(Outcome),
    /// The transport of the notifications ended or failed.
    Closed,
}

/// A signal, as the contracts see it.
pub enum SignalModel {
    Notified(EventModel),
    Completed(Outcome),
    Closed,
}

impl View for Signal {
    type V = SignalModel;

    open spec fn view(&self) -> SignalModel {
        match *self {
            Signal::Notified(event) => SignalModel::Notified(event@),
            Signal::Completed(outcome) => SignalModel::Completed(outcome),
            Signal::Closed => SignalModel::Closed,
        }
    }
}

/// What the watcher tells its driver to do.
#[derive(Clone, PartialEq, Eq, Debug)]
pub enum Command {
    /// Wait for the next signal.
    Await,
    /// Run the codec on the job, whether or not an artifact exists: decode
    /// the source, resample it, create the directory of the target where it
    /// is missing, and write the artifact. Hand back the outcome.
    Generate(Job),
    /// Stop watching; what the cache holds stays in use.
    Halt,
    /// Stop on a fatal failure.
    Abort,
}

/// A command, as the contracts see it.
pub enum CommandModel {
    Await,
    Generate(JobModel),
    Halt,
    Abort,
}

impl View for Command {
    type V = CommandModel;

    open spec fn view(&self) -> CommandModel {
        match *self {
            Command::Await => CommandModel::Await,
            Command::Generate(job) => CommandModel::Generate(job@),
            Command::Halt => CommandModel::Halt,
            Command::Abort => CommandModel::Abort,
        }
    }
}

/// The state of the watcher, as the contracts see it.
pub struct Watch {
    pub image_root: Seq<u8>,
    pub cache_root: Seq<u8>,
    pub granularity: Granularity,
    pub phase: Phase,
}

/// The state of the watcher.
pub struct Watcher {
    image_root: Vec<u8>,
    cache_root: Vec<u8>,
    granularity: Granularity,
    phase: Phase,
}

impl View for Watcher {
    type V = Watch;

    closed spec fn view(&self) -> Watch {
        Watch {
            image_root: self.image_root@,
            cache_root: self.cache_root@,
            granularity: self.granularity,
            phase: self.phase,
        }
    }
}

/// Whether a watcher of the given granularity takes up events of `kind`.
pub open spec fn takes_up(granularity: Granularity, kind: EventKind) -> bool {
    match granularity {
        Granularity::AnyCreation => kind is Create,
        Granularity::FileCreation => kind == EventKind::Create(CreateKind::File),
    }
}

/// The job that an event calls for: none unless the event is one that the
/// watcher takes up and carries a path below the image root. Of several
/// paths only the first counts.
pub open spec fn job_of(watch: Watch, event: EventModel) -> Option<JobModel> {
    if takes_up(watch.granularity, event.kind) && event.paths.len() > 0 {
        match relative_to(watch.image_root, event.paths[0]) {
            Some(rel) => Some(
                JobModel { source: event.paths[0], target: cache_path(watch.cache_root, rel) },
            ),
            None => None,
        }
    } else {
        None
    }
}

/// The watcher in the given phase, all else as in `watch`.
pub open spec fn in_phase(watch: Watch, phase: Phase) -> Watch {
    Watch {
        image_root: watch.image_root,
        cache_root: watch.cache_root,
        granularity: watch.granularity,
        phase,
    }
}

/// The transition of the watcher: the state and the command that follow a
/// signal.
///
/// - Stopped, the watcher stays stopped.
/// - When the transport closes, the watcher stops.
/// - Armed, it takes up a notification that calls for a job and waits for
///   the next signal on any other.
/// - Processing, it arms itself again when the codec has ended, unless the
///   outcome is fatal; a notification that is handed to it meanwhile is not
///   taken up.
pub open spec fn respond(watch: Watch, signal: SignalModel) -> (Watch, CommandModel) {
    match (watch.phase, signal) {
        (Phase::Stopped, _) => (watch, CommandModel::Halt),
        (_, SignalModel::Closed) => (in_phase(watch, Phase::Stopped), CommandModel::Halt),
        (Phase::Armed, SignalModel::Notified(event)) => match job_of(watch, event) {
            Some(job) => (in_phase(watch, Phase::Processing), CommandModel::Generate(job)),
            None => (watch, CommandModel::Await),
        },
        (Phase::Armed, SignalModel::Completed(_)) => (watch, CommandModel::Await),
        (Phase::Processing, SignalModel::Notified(_)) => (watch, CommandModel::Await),
        (Phase::Processing, SignalModel::Completed(outcome)) => if passes(outcome) {
            (in_phase(watch, Phase::Armed), CommandModel::Await)
        } else {
            (in_phase(watch, Phase::Stopped), CommandModel::Abort)
        },
    }
}

/// Whether a watcher of the given granularity takes up events of `kind`.
pub fn accepts(granularity: Granularity, kind: EventKind) -> (b: bool)
    ensures
        b == takes_up(granularity, kind),
{
    match granularity {
        Granularity::AnyCreation => match kind {
            EventKind::Create(_) => true,
            EventKind::Other => false,
        },
        Granularity::FileCreation => match kind {
            EventKind::Create(CreateKind::File) => true,
            _ => false,
        },
    }
}

impl Watcher {
    /// An armed watcher of the tree below `image_root`, for the cache below
    /// `cache_root`.
    pub fn new(image_root: Vec<u8>, cache_root: Vec<u8>, granularity: Granularity) -> (w: Watcher)
        ensures
            w@ == (Watch {
                image_root: image_root@,
                cache_root: cache_root@,
                granularity,
                phase: Phase::Armed,
            }),
    {
        Watcher { image_root, cache_root, granularity, phase: Phase::Armed }
    }

    /// The phase that the watcher is in.
    pub fn phase(&self) -> (p: Phase)
        ensures
            p == self@.phase,
    {
        self.phase
    }

    /// The job that `event` calls for, if any.
    pub fn job(&self, event: WatchEvent) -> (job: Option<Job>)
        ensures
            match job {
                Some(j) => job_of(self@, event@) == Some(j@),
                None => job_of(self@, event@) is None,
            },
    {
        let mut paths = event.paths;
        if !accepts(self.granularity, event.kind) || paths.len() == 0 {
            return None;
        }
        let source = paths.swap_remove(0);
        assert(source@ == event@.paths[0]);
        match relative(self.image_root.as_slice(), source.as_slice()) {
            Some(rel) => {
                let target = map_to_cache(self.cache_root.as_slice(), rel.as_slice());
                Some(Job { source, target })
            },
            None => None,
        }
    }

    /// Takes a signal and gives the command that follows from it.
    pub fn handle(&mut self, signal: Signal) -> (command: Command)
        ensures
            (final(self)@, command@) == respond(old(self)@, signal@),
    {
        match self.phase {
            Phase::Stopped => Command::Halt,
            Phase::Armed => match signal {
                Signal::Closed => {
                    self.phase = Phase::Stopped;
                    Command::Halt
                },
                Signal::Notified(event) => match self.job(event) {
                    Some(job) => {
                        self.phase = Phase::Processing;
                        Command::Generate(job)
                    },
                    None => Command::Await,
                },
                Signal::Completed(_) => Command::Await,
            },
            Phase::Processing => match signal {
                Signal::Closed => {
                    self.phase = Phase::Stopped;
                    Command::Halt
                },
                Signal::Notified(_) => Command::Await,
                Signal::Completed(outcome) => {
                    if goes_on(outcome) {
                        self.phase = Phase::Armed;
                        Command::Await
                    } else {
                        self.phase = Phase::Stopped;
                        Command::Abort
                    }
                },
            },
        }
    }
}

} // verus!
