//! The reconciler: one pass over the tree of source images that asks for a
//! thumbnail wherever none is in the cache yet.
//!
//! The pass is a machine. It hands its driver a request (list this
//! directory, look for this artifact, run the codec on this file) and takes
//! the driver's reply, from which it draws the next request. It walks the
//! tree depth first: the entries of a directory in the order of its listing,
//! a subdirectory wholly before the entry that follows it.
//!
//! That an artifact exists is all the pass asks: it does not look whether
//! the source has changed since. Two sources that differ in their
//! extension only share one cache path; the pass makes the artifact from the
//! first of them that decodes and finds it present when it comes to the
//! other.

use crate::outcome::{goes_on, passes, Outcome};
use crate::path::{cache_path, join, joined, map_to_cache};
use vstd::prelude::*;

verus! {

/// What kind of node an entry of a directory is.
#[derive(Clone, Copy, PartialEq, Eq, Structural, Debug)]
pub enum EntryKind {
    /// A regular file.
    File,
    /// A directory.
    Directory,
    /// Anything else: a symbolic link, a socket, a device.
    Other,
}

/// One entry of a directory's listing.
#[derive(Clone, PartialEq, Eq, Debug)]
pub struct DirEntry {
    /// The entry's name within its directory.
    pub name: Vec<u8>,
    /// What the entry is.
    pub kind: EntryKind,
}

/// An entry of a listing, as the contracts see it.
pub struct Entry {
    pub name: Seq<u8>,
    pub kind: EntryKind,
}

impl View for DirEntry {
    type V = Entry;

    open spec fn view(&self) -> Entry {
        Entry { name: self.name@, kind: self.kind }
    }
}

/// The entries of a listing, as the contracts see them.
pub open spec fn entries_view(entries: Seq<DirEntry>) -> Seq<Entry> {
    entries.map_values(|e: DirEntry| e@)
}

/// One invocation of the codec: the source image to read and the artifact
/// to write, both by their full paths.
#[derive(Clone, PartialEq, Eq, Debug)]
pub struct Job {
    pub source: Vec<u8>,
    pub target: Vec<u8>,
}

/// A job, as the contracts see it.
pub struct JobModel {
    pub source: Seq<u8>,
    pub target: Seq<u8>,
}

impl View for Job {
    type V = JobModel;

    open spec fn view(&self) -> JobModel {
        JobModel { source: self.source@, target: self.target@ }
    }
}

/// The job for the source image at `rel` below the image root.
pub open spec fn job_for(image_root: Seq<u8>, cache_root: Seq<u8>, rel: Seq<u8>) -> JobModel {
    JobModel { source: join(image_root, rel), target: cache_path(cache_root, rel) }
}

/// What the reconciler asks of its driver.
#[derive(Clone, PartialEq, Eq, Debug)]
pub enum Request {
    /// Read the directory at `path`, which is `dir` relative to the image
    /// root, and reply with its entries.
    List { dir: Vec<u8>, path: Vec<u8> },
    /// Look whether an artifact exists at the job's target, and reply with
    /// the job and the answer.
    Probe(Job),
    /// Run the codec on the job: decode the source, resample it, create
    /// the directory of the target where it is missing, and write the
    /// artifact. Reply with the outcome.
    Generate(Job),
    /// The pass is complete.
    Finished,
    /// The pass has ended on a fatal failure.
    Abort,
}

/// A request, as the contracts see it.
pub enum RequestModel {
    List { dir: Seq<u8>, path: Seq<u8> },
    Probe(JobModel),
    Generate(JobModel),
    Finished,
    Abort,
}

impl View for Request {
    type V = RequestModel;

    open spec fn view(&self) -> RequestModel {
        match *self {
            Request::List { dir, path } => RequestModel::List { dir: dir@, path: path@ },
            Request::Probe(job) => RequestModel::Probe(job@),
            Request::Generate(job) => RequestModel::Generate(job@),
            Request::Finished => RequestModel::Finished,
            Request::Abort => RequestModel::Abort,
        }
    }
}

/// What the driver reports back.
#[derive(Clone, PartialEq, Eq, Debug)]
pub enum Reply {
    /// The entries of the directory `dir`, in the order of its listing.
    Listed { dir: Vec<u8>, entries: Vec<DirEntry> },
    /// Whether an artifact exists at the target of `job`.
    Probed { job: Job, exists: bool },
    /// How the codec ended.
    Generated(Outcome),
}

/// A reply, as the contracts see it.
pub enum ReplyModel {
    Listed { dir: Seq<u8>, entries: Seq<Entry> },
    Probed { job: JobModel, exists: bool },
    Generated(Outcome),
}

impl View for Reply {
    type V = ReplyModel;

    open spec fn view(&self) -> ReplyModel {
        match *self {
            Reply::Listed { dir, entries } => ReplyModel::Listed {
                dir: dir@,
                entries: entries_view(entries@),
            },
            Reply::Probed { job, exists } => ReplyModel::Probed { job: job@, exists },
            Reply::Generated(outcome) => ReplyModel::Generated(outcome),
        }
    }
}

/// A node that the pass has discovered and not yet taken up, as the
/// contracts see it: its path relative to the image root, and whether it is
/// a directory or a regular file.
pub struct Item {
    pub path: Seq<u8>,
    pub is_dir: bool,
}

/// A node that the pass has discovered and not yet taken up.
pub struct Pending {
    path: Vec<u8>,
    is_dir: bool,
}

impl View for Pending {
    type V = Item;

    closed spec fn view(&self) -> Item {
        Item { path: self.path@, is_dir: self.is_dir }
    }
}

/// The state of a pass, as the contracts see it. The last item of
/// `pending` is taken up next.
pub struct Walk {
    pub image_root: Seq<u8>,
    pub cache_root: Seq<u8>,
    pub pending: Seq<Item>,
}

/// The state of a pass.
pub struct Reconciler {
    image_root: Vec<u8>,
    cache_root: Vec<u8>,
    pending: Vec<Pending>,
}

impl View for Reconciler {
    type V = Walk;

    closed spec fn view(&self) -> Walk {
        Walk {
            image_root: self.image_root@,
            cache_root: self.cache_root@,
            pending: self.pending@.map_values(|p: Pending| p@),
        }
    }
}

/// What the listing `entries` of the directory `dir` adds to the pending
/// items: its files and directories, the first entry last, so that it is
/// taken up first. Entries of other kinds are left out.
pub open spec fn stacked(dir: Seq<u8>, entries: Seq<Entry>) -> Seq<Item>
    decreases entries.len(),
{
    if entries.len() == 0 {
        Seq::empty()
    } else {
        let rest = stacked(dir, entries.subrange(1, entries.len() as int));
        let first = entries[0];
        if first.kind == EntryKind::Other {
            rest
        } else {
            rest.push(
                Item { path: join(dir, first.name), is_dir: first.kind == EntryKind::Directory },
            )
        }
    }
}

/// The pass takes up its next pending item: a directory is to be listed, a
/// file's artifact to be looked for. With nothing pending the pass is
/// finished.
pub open spec fn proceed(walk: Walk) -> (Walk, RequestModel) {
    if walk.pending.len() == 0 {
        (walk, RequestModel::Finished)
    } else {
        let top = walk.pending.last();
        let rest = Walk {
            image_root: walk.image_root,
            cache_root: walk.cache_root,
            pending: walk.pending.drop_last(),
        };
        if top.is_dir {
            (rest, RequestModel::List { dir: top.path, path: join(walk.image_root, top.path) })
        } else {
            (rest, RequestModel::Probe(job_for(walk.image_root, walk.cache_root, top.path)))
        }
    }
}

/// The pass at its start: nothing is pending, and the image root itself is
/// to be listed.
pub open spec fn start(image_root: Seq<u8>, cache_root: Seq<u8>) -> (Walk, RequestModel) {
    (
        Walk { image_root, cache_root, pending: Seq::empty() },
        RequestModel::List { dir: Seq::empty(), path: join(image_root, Seq::empty()) },
    )
}

/// The transition of the pass: the state and the request that follow a
/// reply.
///
/// - A listing puts its files and directories on top of the pending items,
///   and the pass proceeds.
/// - An artifact that exists is left alone, and the pass proceeds; one that
///   is missing is to be generated.
/// - After the codec has run the pass proceeds, unless the outcome is fatal.
pub open spec fn react(walk: Walk, reply: ReplyModel) -> (Walk, RequestModel) {
    match reply {
        ReplyModel::Listed { dir, entries } => proceed(
            Walk {
                image_root: walk.image_root,
                cache_root: walk.cache_root,
                pending: walk.pending + stacked(dir, entries),
            },
        ),
        ReplyModel::Probed { job, exists } => if exists {
            proceed(walk)
        } else {
            (walk, RequestModel::Generate(job))
        },
        ReplyModel::Generated(outcome) => if passes(outcome) {
            proceed(walk)
        } else {
            (walk, RequestModel::Abort)
        },
    }
}

impl Reconciler {
    /// A pass over the tree below `image_root`, for the cache below
    /// `cache_root`, and its first request.
    pub fn begin(image_root: Vec<u8>, cache_root: Vec<u8>) -> (r: (Reconciler, Request))
        ensures
            (r.0@, r.1@) == start(image_root@, cache_root@),
    {
        let dir: Vec<u8> = Vec::new();
        let path = joined(image_root.as_slice(), dir.as_slice());
        let pass = Reconciler { image_root, cache_root, pending: Vec::new() };
        assert(pass@.pending =~= Seq::empty());
        (pass, Request::List { dir, path })
    }

    /// Takes the driver's reply and gives the next request.
    pub fn advance(&mut self, reply: Reply) -> (request: Request)
        ensures
            (final(self)@, request@) == react(old(self)@, reply@),
    {
        match reply {
            Reply::Listed { dir, entries } => {
                self.stack(dir, entries);
                self.next()
            },
            Reply::Probed { job, exists } => {
                if exists {
                    self.next()
                } else {
                    Request::Generate(job)
                }
            },
            Reply::Generated(outcome) => {
                if goes_on(outcome) {
                    self.next()
                } else {
                    Request::Abort
                }
            },
        }
    }

    /// Puts the files and directories of a listing on top of the pending
    /// items.
    fn stack(&mut self, dir: Vec<u8>, entries: Vec<DirEntry>)
        ensures
            final(self)@ == (Walk {
                image_root: old(self)@.image_root,
                cache_root: old(self)@.cache_root,
                pending: old(self)@.pending + stacked(dir@, entries_view(entries@)),
            }),
    {
        let mut rest = entries;
        let ghost all = entries_view(entries@);
        while rest.len() > 0
            invariant
                rest@.len() <= all.len(),
                entries_view(rest@) == all.subrange(0, rest@.len() as int),
                self@.image_root == old(self)@.image_root,
                self@.cache_root == old(self)@.cache_root,
                self@.pending == old(self)@.pending + stacked(
                    dir@,
                    all.subrange(rest@.len() as int, all.len() as int),
                ),
            decreases rest.len(),
        {
            let ghost before = self@.pending;
            let ghost n = rest@.len() as int;
            let ghost done = all.subrange(n, all.len() as int);
            let entry = rest.pop().unwrap();
            proof {
                let now = all.subrange(n - 1, all.len() as int);
                assert(all.subrange(0, n)[n - 1] == all[n - 1]);
                assert(entries_view(rest@) =~= all.subrange(0, n - 1));
                assert(now.subrange(1, now.len() as int) =~= done);
            }
            match entry.kind {
                EntryKind::Other => {},
                EntryKind::File => {
                    let path = joined(dir.as_slice(), entry.name.as_slice());
                    self.pending.push(Pending { path, is_dir: false });
                    assert(self@.pending =~= before.push(
                        Item { path: join(dir@, entry@.name), is_dir: false },
                    ));
                },
                EntryKind::Directory => {
                    let path = joined(dir.as_slice(), entry.name.as_slice());
                    self.pending.push(Pending { path, is_dir: true });
                    assert(self@.pending =~= before.push(
                        Item { path: join(dir@, entry@.name), is_dir: true },
                    ));
                },
            }
        }
        assert(all.subrange(0, all.len() as int) =~= all);
    }

    /// Takes up the next pending item.
    fn next(&mut self) -> (request: Request)
        ensures
            (final(self)@, request@) == proceed(old(self)@),
    {
        match self.pending.pop() {
            None => Request::Finished,
            Some(top) => {
                assert(self@.pending =~= old(self)@.pending.drop_last());
                assert(top@ == old(self)@.pending.last());
                if top.is_dir {
                    let path = joined(self.image_root.as_slice(), top.path.as_slice());
                    Request::List { dir: top.path, path }
                } else {
                    let source = joined(self.image_root.as_slice(), top.path.as_slice());
                    let target = map_to_cache(self.cache_root.as_slice(), top.path.as_slice());
                    Request::Probe(Job { source, target })
                }
            },
        }
    }
}

} // verus!
