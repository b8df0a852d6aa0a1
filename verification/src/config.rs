//! The configuration: the three directories that the service works on.

use crate::reconcile::{start, Reconciler, Request};
use crate::watch::{Granularity, Phase, Watch, Watcher};
use vstd::prelude::*;

verus! {

/// The three roots. They are set once, at startup, and handed to the
/// reconciler and to the watcher, which never change them.
#[derive(Clone, PartialEq, Eq, Debug)]
pub struct Config {
    /// The directory of the other static assets.
    pub static_root: Vec<u8>,
    /// The directory of the tree of source images.
    pub image_root: Vec<u8>,
    /// The directory of the cache of thumbnails.
    pub cache_root: Vec<u8>,
}

impl Config {
    /// The directories that must exist before the service starts, each to
    /// be created where it is absent: the static root, the image root and
    /// the cache root, in this order.
    pub fn directories(&self) -> (dirs: Vec<Vec<u8>>)
        ensures
            dirs@.len() == 3,
            dirs@[0]@ == self.static_root@,
            dirs@[1]@ == self.image_root@,
            dirs@[2]@ == self.cache_root@,
    {
        let mut dirs: Vec<Vec<u8>> = Vec::new();
        dirs.push(self.static_root.clone());
        dirs.push(self.image_root.clone());
        dirs.push(self.cache_root.clone());
        dirs
    }

    /// A reconciling pass over the configured trees, and its first request.
    pub fn reconciler(&self) -> (r: (Reconciler, Request))
        ensures
            (r.0@, r.1@) == start(self.image_root@, self.cache_root@),
    {
        Reconciler::begin(self.image_root.clone(), self.cache_root.clone())
    }

    /// An armed watcher of the configured trees.
    pub fn watcher(&self, granularity: Granularity) -> (w: Watcher)
        ensures
            w@ == (Watch {
                image_root: self.image_root@,
                cache_root: self.cache_root@,
                granularity,
                phase: Phase::Armed,
            }),
    {
        Watcher::new(self.image_root.clone(), self.cache_root.clone(), granularity)
    }
}

} // verus!
