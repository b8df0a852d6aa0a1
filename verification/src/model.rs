//! A model of the two trees and of the driver, and the laws that the
//! synchronisation obeys when it runs against them.
//!
//! The model is ghost: it says what a truthful driver reports about a
//! tree of sources and a cache, and what the codec does to the cache. The
//! laws below are proved of the very transitions that the reconciler and the
//! watcher compute.

use crate::outcome::{Failure, Outcome};
use crate::path::{cache_path, join, lemma_relative_join};
use crate::reconcile::{
    job_for, proceed, react, stacked, start, Entry, EntryKind, Item, JobModel, ReplyModel,
    RequestModel, Walk,
};
use crate::watch::{
    in_phase, job_of, respond, takes_up, CommandModel, EventModel, Phase, SignalModel, Watch,
};
use vstd::prelude::*;

verus! {

/// The tree of sources below the image root.
pub struct Tree {
    /// What each directory lists, by the directory's path relative to the
    /// image root.
    pub listing: spec_fn(Seq<u8>) -> Seq<Entry>,
}

/// The source tree and the cache at one moment.
pub struct World {
    /// The tree of sources.
    pub tree: Tree,
    /// The full paths of the sources that the codec can read and decode.
    pub decodable: Set<Seq<u8>>,
    /// The full paths at which an artifact can be written.
    pub writable: Set<Seq<u8>>,
    /// The full paths at which the cache holds an artifact.
    pub cache: Set<Seq<u8>>,
}

/// The directory `dir` lists an entry of the given kind whose path,
/// relative to the image root, is `path`.
pub open spec fn lists(tree: Tree, dir: Seq<u8>, path: Seq<u8>, kind: EntryKind) -> bool {
    exists|k: int|
        0 <= k < (tree.listing)(dir).len() && (#[trigger] (tree.listing)(dir)[k]).kind == kind
            && join(dir, (tree.listing)(dir)[k].name) == path
}

/// `chain` leads from the image root downwards: it starts with the root,
/// and each of its directories lists the next.
pub open spec fn descends(tree: Tree, chain: Seq<Seq<u8>>) -> bool {
    &&& chain.len() > 0
    &&& chain[0] == Seq::<u8>::empty()
    &&& forall|i: int|
        #![trigger chain[i]]
        0 <= i < chain.len() - 1 ==> lists(tree, chain[i], chain[i + 1], EntryKind::Directory)
}

/// `rel` is a regular file of the tree, found by way of the directories of
/// `chain`.
pub open spec fn route(tree: Tree, chain: Seq<Seq<u8>>, rel: Seq<u8>) -> bool {
    descends(tree, chain) && lists(tree, chain.last(), rel, EntryKind::File)
}

/// `dir` is a directory of the tree.
pub open spec fn is_directory(tree: Tree, dir: Seq<u8>) -> bool {
    exists|chain: Seq<Seq<u8>>| #[trigger] descends(tree, chain) && chain.last() == dir
}

/// `rel` is a regular file under the image root.
pub open spec fn is_source_file(tree: Tree, rel: Seq<u8>) -> bool {
    exists|chain: Seq<Seq<u8>>| #[trigger] route(tree, chain, rel)
}

/// What the codec does with a job: an artifact appears at the target where
/// the source decodes and the target can be written, and nothing changes
/// otherwise.
pub open spec fn perform(world: World, job: JobModel) -> (Outcome, World) {
    if !world.decodable.contains(job.source) {
        (Outcome::Failed(Failure::Undecodable), world)
    } else if !world.writable.contains(job.target) {
        (Outcome::Failed(Failure::CacheUnwritable), world)
    } else {
        (
            Outcome::Written,
            World {
                tree: world.tree,
                decodable: world.decodable,
                writable: world.writable,
                cache: world.cache.insert(job.target),
            },
        )
    }
}

/// What a truthful driver replies to a request, and the world after it has
/// done what was asked. A pass that has ended asks for nothing: what stands
/// here for its last request is of no account.
pub open spec fn answer(world: World, request: RequestModel) -> (ReplyModel, World)
    recommends
        !(request is Finished),
        !(request is Abort),
{
    match request {
        RequestModel::List { dir, path } => (
            ReplyModel::Listed { dir, entries: (world.tree.listing)(dir) },
            world,
        ),
        RequestModel::Probe(job) => (
            ReplyModel::Probed { job, exists: world.cache.contains(job.target) },
            world,
        ),
        RequestModel::Generate(job) => (
            ReplyModel::Generated(perform(world, job).0),
            perform(world, job).1,
        ),
        _ => (ReplyModel::Generated(Outcome::Written), world),
    }
}

/// A reconciling pass in progress: the state of the reconciler, the request
/// that its driver is working on, and the world.
pub struct Pass {
    pub walk: Walk,
    pub request: RequestModel,
    pub world: World,
}

/// A pass at its start.
pub open spec fn opening(image_root: Seq<u8>, cache_root: Seq<u8>, world: World) -> Pass {
    Pass {
        walk: start(image_root, cache_root).0,
        request: start(image_root, cache_root).1,
        world,
    }
}

/// Whether the pass has ended, complete or on a fatal failure.
pub open spec fn ended(pass: Pass) -> bool {
    pass.request is Finished || pass.request is Abort
}

/// One round of a pass: the driver answers the request, and the reconciler
/// reacts. A pass that has ended stays as it is.
pub open spec fn round(pass: Pass) -> Pass {
    if ended(pass) {
        pass
    } else {
        let (reply, world) = answer(pass.world, pass.request);
        let (walk, request) = react(pass.walk, reply);
        Pass { walk, request, world }
    }
}

/// The pass after `n` rounds.
pub open spec fn after(pass: Pass, n: nat) -> Pass
    decreases n,
{
    if n == 0 {
        pass
    } else {
        round(after(pass, (n - 1) as nat))
    }
}

/// The file at `rel` needs nothing more from the pass: its artifact exists,
/// or it is no image that decodes.
pub open spec fn settled(pass: Pass, rel: Seq<u8>) -> bool {
    pass.world.cache.contains(cache_path(pass.walk.cache_root, rel))
        || !pass.world.decodable.contains(join(pass.walk.image_root, rel))
}

/// The pass still has the directory `dir` before it.
pub open spec fn awaits_dir(pass: Pass, dir: Seq<u8>) -> bool {
    ||| pass.walk.pending.contains(Item { path: dir, is_dir: true })
    ||| pass.request matches RequestModel::List { dir: d, .. } && d == dir
}

/// The pass still has the file at `rel` before it.
pub open spec fn awaits_file(pass: Pass, rel: Seq<u8>) -> bool {
    let job = job_for(pass.walk.image_root, pass.walk.cache_root, rel);
    ||| pass.walk.pending.contains(Item { path: rel, is_dir: false })
    ||| pass.request == RequestModel::Probe(job)
    ||| pass.request == RequestModel::Generate(job)
}

/// The file at `rel` is settled, or the pass still has it, or a directory
/// on the way to it, before it.
pub open spec fn accounted(pass: Pass, chain: Seq<Seq<u8>>, rel: Seq<u8>) -> bool {
    ||| settled(pass, rel)
    ||| awaits_file(pass, rel)
    ||| exists|i: int| 0 <= i < chain.len() && awaits_dir(pass, #[trigger] chain[i])
}

/// The invariant of a pass over the world `origin`: the tree is as it was
/// and the cache has lost nothing, a finished pass has nothing pending, and
/// unless the pass was aborted every file of the tree is accounted for.
pub open spec fn thorough(pass: Pass, origin: World) -> bool {
    &&& pass.world.tree == origin.tree
    &&& pass.world.decodable == origin.decodable
    &&& pass.world.writable == origin.writable
    &&& origin.cache.subset_of(pass.world.cache)
    &&& pass.request is Finished ==> pass.walk.pending.len() == 0
    &&& pass.request is Abort || forall|chain: Seq<Seq<u8>>, rel: Seq<u8>| #[trigger]
        route(origin.tree, chain, rel) ==> accounted(pass, chain, rel)
}

/// Every file and directory of a listing is among the items that the
/// listing adds.
pub proof fn lemma_stacked_has(dir: Seq<u8>, entries: Seq<Entry>, k: int)
    requires
        0 <= k < entries.len(),
        entries[k].kind != EntryKind::Other,
    ensures
        stacked(dir, entries).contains(
            Item {
                path: join(dir, entries[k].name),
                is_dir: entries[k].kind == EntryKind::Directory,
            },
        ),
    decreases entries.len(),
{
    let item = Item {
        path: join(dir, entries[k].name),
        is_dir: entries[k].kind == EntryKind::Directory,
    };
    let tail = entries.subrange(1, entries.len() as int);
    let rest = stacked(dir, tail);
    let all = stacked(dir, entries);
    if k == 0 {
        assert(all == rest.push(item));
        assert(all[rest.len() as int] == item);
    } else {
        assert(tail[k - 1] == entries[k]);
        lemma_stacked_has(dir, tail, k - 1);
        let i = choose|i: int| 0 <= i < rest.len() && rest[i] == item;
        assert(all[i] == item);
    }
}

/// Every item that a listing adds is a file or a directory of the listing.
pub proof fn lemma_stacked_from(dir: Seq<u8>, entries: Seq<Entry>, item: Item)
    requires
        stacked(dir, entries).contains(item),
    ensures
        exists|k: int|
            0 <= k < entries.len() && (#[trigger] entries[k]).kind != EntryKind::Other && item
                == (Item {
                path: join(dir, entries[k].name),
                is_dir: entries[k].kind == EntryKind::Directory,
            }),
    decreases entries.len(),
{
    if entries.len() > 0 {
        let tail = entries.subrange(1, entries.len() as int);
        let rest = stacked(dir, tail);
        let all = stacked(dir, entries);
        let i = choose|i: int| 0 <= i < all.len() && all[i] == item;
        if i < rest.len() {
            assert(rest[i] == item);
            lemma_stacked_from(dir, tail, item);
            let k = choose|k: int|
                0 <= k < tail.len() && (#[trigger] tail[k]).kind != EntryKind::Other && item
                    == (Item {
                    path: join(dir, tail[k].name),
                    is_dir: tail[k].kind == EntryKind::Directory,
                });
            assert(entries[k + 1] == tail[k]);
        } else {
            assert(entries[0].kind != EntryKind::Other);
        }
    }
}

/// An item that is pending when the reconciler proceeds stays pending, or
/// is the one that the next request is about.
pub proof fn lemma_proceed_keeps(walk: Walk, item: Item)
    requires
        walk.pending.contains(item),
    ensures
        ({
            let (next, request) = proceed(walk);
            &&& next.image_root == walk.image_root
            &&& next.cache_root == walk.cache_root
            &&& !(request is Finished)
            &&& next.pending.contains(item) || (if item.is_dir {
                request == (RequestModel::List {
                    dir: item.path,
                    path: join(walk.image_root, item.path),
                })
            } else {
                request == RequestModel::Probe(
                    job_for(walk.image_root, walk.cache_root, item.path),
                )
            })
        }),
{
    let i = choose|i: int| 0 <= i < walk.pending.len() && walk.pending[i] == item;
    if i < walk.pending.len() - 1 {
        assert(walk.pending.drop_last()[i] == item);
    }
}

/// What awaited the pass before the reconciler proceeds from `before` to
/// `pass`, with the world unchanged but for a cache that may have grown,
/// still awaits it or is settled.
proof fn lemma_proceed_accounts(before: Pass, pass: Pass, chain: Seq<Seq<u8>>, rel: Seq<u8>)
    requires
        (pass.walk, pass.request) == proceed(before.walk),
        pass.world.decodable == before.world.decodable,
        before.world.cache.subset_of(pass.world.cache),
        settled(before, rel) || before.walk.pending.contains(Item { path: rel, is_dir: false })
            || exists|i: int|
            0 <= i < chain.len() && before.walk.pending.contains(
                Item { path: #[trigger] chain[i], is_dir: true },
            ),
    ensures
        accounted(pass, chain, rel),
{
    if settled(before, rel) {
        assert(settled(pass, rel));
    } else if before.walk.pending.contains(Item { path: rel, is_dir: false }) {
        lemma_proceed_keeps(before.walk, Item { path: rel, is_dir: false });
        assert(awaits_file(pass, rel));
    } else {
        let i = choose|i: int|
            0 <= i < chain.len() && before.walk.pending.contains(
                Item { path: #[trigger] chain[i], is_dir: true },
            );
        lemma_proceed_keeps(before.walk, Item { path: chain[i], is_dir: true });
        assert(awaits_dir(pass, chain[i]));
    }
}

/// An item of either of two sequences is an item of the two joined.
proof fn lemma_contains_add(a: Seq<Item>, b: Seq<Item>, item: Item)
    requires
        a.contains(item) || b.contains(item),
    ensures
        (a + b).contains(item),
{
    if a.contains(item) {
        let i = choose|i: int| 0 <= i < a.len() && a[i] == item;
        assert((a + b)[i] == item);
    } else {
        let i = choose|i: int| 0 <= i < b.len() && b[i] == item;
        assert((a + b)[a.len() + i] == item);
    }
}

/// A round keeps a pass thorough.
pub proof fn lemma_round_thorough(pass: Pass, origin: World)
    requires
        thorough(pass, origin),
    ensures
        thorough(round(pass), origin),
        round(pass).walk.image_root == pass.walk.image_root,
        round(pass).walk.cache_root == pass.walk.cache_root,
{
    let next = round(pass);
    if ended(pass) {
        return ;
    }
    let (reply, world) = answer(pass.world, pass.request);
    if next.request is Abort {
        return ;
    }
    match pass.request {
        RequestModel::List { dir, path } => {
            let entries = (pass.world.tree.listing)(dir);
            let grown = Walk {
                image_root: pass.walk.image_root,
                cache_root: pass.walk.cache_root,
                pending: pass.walk.pending + stacked(dir, entries),
            };
            let before = Pass { walk: grown, request: pass.request, world: pass.world };
            assert forall|chain: Seq<Seq<u8>>, rel: Seq<u8>| #[trigger]
                route(origin.tree, chain, rel) implies accounted(next, chain, rel) by {
                assert(accounted(pass, chain, rel));
                if settled(pass, rel) {
                } else if awaits_file(pass, rel) {
                    lemma_contains_add(
                        pass.walk.pending,
                        stacked(dir, entries),
                        Item { path: rel, is_dir: false },
                    );
                } else {
                    let i = choose|i: int|
                        0 <= i < chain.len() && awaits_dir(pass, #[trigger] chain[i]);
                    if pass.walk.pending.contains(Item { path: chain[i], is_dir: true }) {
                        lemma_contains_add(
                            pass.walk.pending,
                            stacked(dir, entries),
                            Item { path: chain[i], is_dir: true },
                        );
                    } else if i < chain.len() - 1 {
                        assert(lists(origin.tree, chain[i], chain[i + 1], EntryKind::Directory));
                        let k = choose|k: int|
                            0 <= k < entries.len() && (#[trigger] entries[k]).kind
                                == EntryKind::Directory && join(dir, entries[k].name) == chain[i
                                + 1];
                        lemma_stacked_has(dir, entries, k);
                        lemma_contains_add(
                            pass.walk.pending,
                            stacked(dir, entries),
                            Item { path: chain[i + 1], is_dir: true },
                        );
                        assert(grown.pending.contains(
                            Item { path: #[trigger] chain[i + 1], is_dir: true },
                        ));
                    } else {
                        let k = choose|k: int|
                            0 <= k < entries.len() && (#[trigger] entries[k]).kind
                                == EntryKind::File && join(dir, entries[k].name) == rel;
                        lemma_stacked_has(dir, entries, k);
                        lemma_contains_add(
                            pass.walk.pending,
                            stacked(dir, entries),
                            Item { path: rel, is_dir: false },
                        );
                    }
                }
                lemma_proceed_accounts(before, next, chain, rel);
            }
        },
        RequestModel::Probe(job) => {
            if pass.world.cache.contains(job.target) {
                assert forall|chain: Seq<Seq<u8>>, rel: Seq<u8>| #[trigger]
                    route(origin.tree, chain, rel) implies accounted(next, chain, rel) by {
                    assert(accounted(pass, chain, rel));
                    lemma_proceed_accounts(pass, next, chain, rel);
                }
            } else {
                assert forall|chain: Seq<Seq<u8>>, rel: Seq<u8>| #[trigger]
                    route(origin.tree, chain, rel) implies accounted(next, chain, rel) by {
                    assert(accounted(pass, chain, rel));
                    if settled(pass, rel) {
                    } else if awaits_file(pass, rel) {
                        assert(awaits_file(next, rel));
                    } else {
                        let i = choose|i: int|
                            0 <= i < chain.len() && awaits_dir(pass, #[trigger] chain[i]);
                        assert(awaits_dir(next, chain[i]));
                    }
                }
            }
        },
        RequestModel::Generate(job) => {
            let done = Pass { walk: pass.walk, request: pass.request, world };
            assert forall|chain: Seq<Seq<u8>>, rel: Seq<u8>| #[trigger]
                route(origin.tree, chain, rel) implies accounted(next, chain, rel) by {
                assert(accounted(pass, chain, rel));
                if settled(pass, rel) {
                    assert(settled(done, rel));
                } else if pass.request == RequestModel::Generate(
                    job_for(pass.walk.image_root, pass.walk.cache_root, rel),
                ) {
                    assert(settled(done, rel));
                }
                lemma_proceed_accounts(done, next, chain, rel);
            }
        },
        _ => {},
    }
}

/// A pass is thorough from its start to its end.
pub proof fn lemma_pass_thorough(image_root: Seq<u8>, cache_root: Seq<u8>, world: World, n: nat)
    ensures
        thorough(after(opening(image_root, cache_root, world), n), world),
        after(opening(image_root, cache_root, world), n).walk.image_root == image_root,
        after(opening(image_root, cache_root, world), n).walk.cache_root == cache_root,
    decreases n,
{
    let first = opening(image_root, cache_root, world);
    if n == 0 {
        assert forall|chain: Seq<Seq<u8>>, rel: Seq<u8>| #[trigger]
            route(world.tree, chain, rel) implies accounted(first, chain, rel) by {
            assert(awaits_dir(first, chain[0]));
        }
    } else {
        lemma_pass_thorough(image_root, cache_root, world, (n - 1) as nat);
        lemma_round_thorough(after(first, (n - 1) as nat), world);
    }
}

/// Mirroring. When a pass over a tree is complete, every regular file under
/// the image root has its artifact at the cache path that the path mapper
/// gives, or is no image that decodes. Nothing that the cache held is lost,
/// and the tree is as it was.
pub proof fn law_mirroring(
    image_root: Seq<u8>,
    cache_root: Seq<u8>,
    world: World,
    n: nat,
    rel: Seq<u8>,
)
    requires
        after(opening(image_root, cache_root, world), n).request is Finished,
        is_source_file(world.tree, rel),
    ensures
        ({
            let end = after(opening(image_root, cache_root, world), n).world;
            &&& end.cache.contains(cache_path(cache_root, rel)) || !world.decodable.contains(
                join(image_root, rel),
            )
            &&& world.cache.subset_of(end.cache)
            &&& end.tree == world.tree
            &&& end.decodable == world.decodable
        }),
{
    let last = after(opening(image_root, cache_root, world), n);
    lemma_pass_thorough(image_root, cache_root, world, n);
    let chain = choose|chain: Seq<Seq<u8>>| #[trigger] route(world.tree, chain, rel);
    assert(accounted(last, chain, rel));
    assert(last.walk.pending =~= Seq::empty());
}

/// Every item that is pending, and the request that the driver is working
/// on, is about a node of the tree.
pub open spec fn within(pass: Pass, tree: Tree) -> bool {
    &&& forall|i: int|
        0 <= i < pass.walk.pending.len() ==> known(tree, #[trigger] pass.walk.pending[i])
    &&& match pass.request {
        RequestModel::List { dir, path } => is_directory(tree, dir),
        RequestModel::Probe(job) => exists|rel: Seq<u8>| #[trigger]
            is_source_file(tree, rel) && job == job_for(
                pass.walk.image_root,
                pass.walk.cache_root,
                rel,
            ),
        RequestModel::Generate(job) => false,
        RequestModel::Finished => true,
        RequestModel::Abort => false,
    }
}

/// The item is a directory or a regular file of the tree.
pub open spec fn known(tree: Tree, item: Item) -> bool {
    if item.is_dir {
        is_directory(tree, item.path)
    } else {
        is_source_file(tree, item.path)
    }
}

/// Every regular file of the world's tree has an artifact in the world's
/// cache.
pub open spec fn complete(world: World, cache_root: Seq<u8>) -> bool {
    forall|rel: Seq<u8>| #[trigger]
        is_source_file(world.tree, rel) ==> world.cache.contains(cache_path(cache_root, rel))
}

/// What a directory of the tree lists as a file or a directory is a node of
/// the tree.
pub proof fn lemma_listed_is_known(tree: Tree, dir: Seq<u8>, k: int)
    requires
        is_directory(tree, dir),
        0 <= k < (tree.listing)(dir).len(),
        (tree.listing)(dir)[k].kind != EntryKind::Other,
    ensures
        known(
            tree,
            Item {
                path: join(dir, (tree.listing)(dir)[k].name),
                is_dir: (tree.listing)(dir)[k].kind == EntryKind::Directory,
            },
        ),
{
    let entry = (tree.listing)(dir)[k];
    let path = join(dir, entry.name);
    let chain = choose|chain: Seq<Seq<u8>>| #[trigger] descends(tree, chain) && chain.last() == dir;
    if entry.kind == EntryKind::Directory {
        let longer = chain.push(path);
        assert(lists(tree, dir, path, EntryKind::Directory));
        assert forall|i: int| #![trigger longer[i]] 0 <= i < longer.len() - 1 implies lists(
            tree,
            longer[i],
            longer[i + 1],
            EntryKind::Directory,
        ) by {
            if i < chain.len() - 1 {
                assert(longer[i] == chain[i] && longer[i + 1] == chain[i + 1]);
            }
        }
        assert(descends(tree, longer) && longer.last() == path);
    } else {
        assert(lists(tree, dir, path, EntryKind::File));
        assert(route(tree, chain, path));
    }
}

/// When a directory of the tree is listed, the pending items stay nodes
/// of the tree.
proof fn lemma_listing_known(pending: Seq<Item>, tree: Tree, dir: Seq<u8>)
    requires
        forall|i: int| 0 <= i < pending.len() ==> known(tree, #[trigger] pending[i]),
        is_directory(tree, dir),
    ensures
        forall|i: int|
            0 <= i < (pending + stacked(dir, (tree.listing)(dir))).len() ==> known(
                tree,
                #[trigger] (pending + stacked(dir, (tree.listing)(dir)))[i],
            ),
{
    let entries = (tree.listing)(dir);
    let added = stacked(dir, entries);
    let grown = pending + added;
    assert forall|i: int| 0 <= i < grown.len() implies known(tree, #[trigger] grown[i]) by {
        if i >= pending.len() {
            let item = grown[i];
            assert(added[i - pending.len()] == item);
            lemma_stacked_from(dir, entries, item);
            let k = choose|k: int|
                0 <= k < entries.len() && (#[trigger] entries[k]).kind != EntryKind::Other && item
                    == (Item {
                    path: join(dir, entries[k].name),
                    is_dir: entries[k].kind == EntryKind::Directory,
                });
            lemma_listed_is_known(tree, dir, k);
        } else {
            assert(grown[i] == pending[i]);
        }
    }
}

/// Over a world whose every file has its artifact, a round leaves the
/// world as it is and asks for no thumbnail.
pub proof fn lemma_round_idle(pass: Pass)
    requires
        within(pass, pass.world.tree),
        complete(pass.world, pass.walk.cache_root),
    ensures
        within(round(pass), pass.world.tree),
        round(pass).world == pass.world,
        round(pass).walk.image_root == pass.walk.image_root,
        round(pass).walk.cache_root == pass.walk.cache_root,
{
    let tree = pass.world.tree;
    let next = round(pass);
    match pass.request {
        RequestModel::List { dir, path } => {
            let grown = Walk {
                image_root: pass.walk.image_root,
                cache_root: pass.walk.cache_root,
                pending: pass.walk.pending + stacked(dir, (tree.listing)(dir)),
            };
            lemma_listing_known(pass.walk.pending, tree, dir);
            lemma_proceed_within(grown, tree);
        },
        RequestModel::Probe(job) => {
            lemma_proceed_within(pass.walk, tree);
        },
        _ => {},
    }
}

/// When every pending item is a node of the tree, so is what the
/// reconciler takes up next, and what stays pending.
proof fn lemma_proceed_within(walk: Walk, tree: Tree)
    requires
        forall|i: int| 0 <= i < walk.pending.len() ==> known(tree, #[trigger] walk.pending[i]),
    ensures
        ({
            let (next, request) = proceed(walk);
            within(Pass { walk: next, request, world: arbitrary() }, tree)
        }),
{
    let (next, request) = proceed(walk);
    if walk.pending.len() > 0 {
        let top = walk.pending.last();
        assert(known(tree, top));
        assert forall|i: int| 0 <= i < next.pending.len() implies known(
            tree,
            #[trigger] next.pending[i],
        ) by {
            assert(next.pending[i] == walk.pending[i]);
        }
    }
}

/// A pass over a world whose every file has its artifact stays within the
/// tree and leaves the world as it is.
pub proof fn lemma_pass_idle(image_root: Seq<u8>, cache_root: Seq<u8>, world: World, n: nat)
    requires
        complete(world, cache_root),
    ensures
        within(after(opening(image_root, cache_root, world), n), world.tree),
        after(opening(image_root, cache_root, world), n).world == world,
        after(opening(image_root, cache_root, world), n).walk.image_root == image_root,
        after(opening(image_root, cache_root, world), n).walk.cache_root == cache_root,
    decreases n,
{
    let first = opening(image_root, cache_root, world);
    if n == 0 {
        let chain = seq![Seq::<u8>::empty()];
        assert(descends(world.tree, chain) && chain.last() == Seq::<u8>::empty());
    } else {
        lemma_pass_idle(image_root, cache_root, world, (n - 1) as nat);
        lemma_round_idle(after(first, (n - 1) as nat));
    }
}

/// Idempotence, of one pass. Over a tree whose every regular file has its
/// artifact, a pass never asks for the codec and never ends on a failure,
/// and the cache stays as it is.
pub proof fn law_settled_tree_needs_no_codec(
    image_root: Seq<u8>,
    cache_root: Seq<u8>,
    world: World,
    n: nat,
)
    requires
        complete(world, cache_root),
    ensures
        !(after(opening(image_root, cache_root, world), n).request is Generate),
        !(after(opening(image_root, cache_root, world), n).request is Abort),
        after(opening(image_root, cache_root, world), n).world == world,
{
    lemma_pass_idle(image_root, cache_root, world, n);
}

/// Idempotence, of two passes. After a complete pass over a tree, a second
/// pass over the unchanged tree never asks for the codec, provided that
/// every file that is no image that decodes has an artifact all the same. (A
/// file that does not decode and has no artifact is tried again by every
/// pass.)
pub proof fn law_idempotent(
    image_root: Seq<u8>,
    cache_root: Seq<u8>,
    world: World,
    first: nat,
    second: nat,
)
    requires
        after(opening(image_root, cache_root, world), first).request is Finished,
        forall|rel: Seq<u8>| #[trigger]
            is_source_file(world.tree, rel) && !world.decodable.contains(join(image_root, rel))
                ==> after(opening(image_root, cache_root, world), first).world.cache.contains(
                cache_path(cache_root, rel),
            ),
    ensures
        ({
            let between = after(opening(image_root, cache_root, world), first).world;
            let again = after(opening(image_root, cache_root, between), second);
            &&& between.tree == world.tree
            &&& !(again.request is Generate)
            &&& !(again.request is Abort)
            &&& again.world == between
        }),
{
    let between = after(opening(image_root, cache_root, world), first).world;
    lemma_pass_thorough(image_root, cache_root, world, first);
    assert forall|rel: Seq<u8>| #[trigger] is_source_file(between.tree, rel) implies
        between.cache.contains(cache_path(cache_root, rel)) by {
        law_mirroring(image_root, cache_root, world, first, rel);
    }
    law_settled_tree_needs_no_codec(image_root, cache_root, between, second);
}

/// Every pending item and the request that the driver is working on are
/// about nodes of the tree: a directory of the tree is listed, and the
/// artifact of a file of the tree is looked for or generated.
pub open spec fn on_tree(pass: Pass, tree: Tree) -> bool {
    &&& forall|i: int|
        0 <= i < pass.walk.pending.len() ==> known(tree, #[trigger] pass.walk.pending[i])
    &&& match pass.request {
        RequestModel::List { dir, path } => is_directory(tree, dir),
        RequestModel::Probe(job) => for_source(pass, tree, job),
        RequestModel::Generate(job) => for_source(pass, tree, job),
        RequestModel::Finished => true,
        RequestModel::Abort => true,
    }
}

/// `job` is the job for a regular file of the tree.
pub open spec fn for_source(pass: Pass, tree: Tree, job: JobModel) -> bool {
    exists|rel: Seq<u8>| #[trigger]
        is_source_file(tree, rel) && job == job_for(
            pass.walk.image_root,
            pass.walk.cache_root,
            rel,
        )
}

/// A round keeps a pass on the tree.
pub proof fn lemma_round_on_tree(pass: Pass)
    requires
        on_tree(pass, pass.world.tree),
    ensures
        on_tree(round(pass), pass.world.tree),
        round(pass).world.tree == pass.world.tree,
        round(pass).world.decodable == pass.world.decodable,
        round(pass).walk.image_root == pass.walk.image_root,
        round(pass).walk.cache_root == pass.walk.cache_root,
{
    let tree = pass.world.tree;
    match pass.request {
        RequestModel::List { dir, path } => {
            let grown = Walk {
                image_root: pass.walk.image_root,
                cache_root: pass.walk.cache_root,
                pending: pass.walk.pending + stacked(dir, (tree.listing)(dir)),
            };
            lemma_listing_known(pass.walk.pending, tree, dir);
            lemma_proceed_within(grown, tree);
        },
        RequestModel::Probe(job) => {
            lemma_proceed_within(pass.walk, tree);
        },
        RequestModel::Generate(job) => {
            lemma_proceed_within(pass.walk, tree);
        },
        _ => {},
    }
}

/// Every artifact that the cache of `pass` holds and that of `origin` does
/// not is the thumbnail of a regular file of the tree that decodes.
pub open spec fn sourced(pass: Pass, origin: World) -> bool {
    forall|artifact: Seq<u8>|
        #[trigger] pass.world.cache.contains(artifact) && !origin.cache.contains(artifact)
            ==> from_source(pass, origin, artifact)
}

/// `artifact` lies where the path mapper puts the thumbnail of a regular
/// file of the tree that decodes.
pub open spec fn from_source(pass: Pass, origin: World, artifact: Seq<u8>) -> bool {
    exists|rel: Seq<u8>| #[trigger]
        is_source_file(origin.tree, rel) && artifact == cache_path(pass.walk.cache_root, rel)
            && origin.decodable.contains(join(pass.walk.image_root, rel))
}

/// A pass stays on the tree, and adds to the cache only thumbnails of files
/// of the tree that decode.
pub proof fn lemma_pass_sourced(image_root: Seq<u8>, cache_root: Seq<u8>, world: World, n: nat)
    ensures
        on_tree(after(opening(image_root, cache_root, world), n), world.tree),
        sourced(after(opening(image_root, cache_root, world), n), world),
        after(opening(image_root, cache_root, world), n).world.tree == world.tree,
        after(opening(image_root, cache_root, world), n).world.decodable == world.decodable,
        after(opening(image_root, cache_root, world), n).walk.image_root == image_root,
        after(opening(image_root, cache_root, world), n).walk.cache_root == cache_root,
    decreases n,
{
    let first = opening(image_root, cache_root, world);
    if n == 0 {
        let chain = seq![Seq::<u8>::empty()];
        assert(descends(world.tree, chain) && chain.last() == Seq::<u8>::empty());
    } else {
        let before = after(first, (n - 1) as nat);
        let now = after(first, n);
        lemma_pass_sourced(image_root, cache_root, world, (n - 1) as nat);
        lemma_round_on_tree(before);
        assert forall|artifact: Seq<u8>|
            #[trigger] now.world.cache.contains(artifact) && !world.cache.contains(
                artifact,
            ) implies from_source(now, world, artifact) by {
            if before.world.cache.contains(artifact) {
                assert(from_source(before, world, artifact));
            } else {
                let job = before.request->Generate_0;
                let rel = choose|rel: Seq<u8>| #[trigger]
                    is_source_file(world.tree, rel) && job == job_for(image_root, cache_root, rel);
                assert(is_source_file(world.tree, rel) && artifact == cache_path(cache_root, rel));
            }
        }
    }
}

/// Nothing but thumbnails. Every artifact that a pass adds to the cache
/// lies where the path mapper puts the thumbnail of a regular file of the
/// tree, and that file decodes.
pub proof fn law_artifacts_come_from_sources(
    image_root: Seq<u8>,
    cache_root: Seq<u8>,
    world: World,
    n: nat,
    artifact: Seq<u8>,
)
    requires
        after(opening(image_root, cache_root, world), n).world.cache.contains(artifact),
        !world.cache.contains(artifact),
    ensures
        exists|rel: Seq<u8>| #[trigger]
            is_source_file(world.tree, rel) && artifact == cache_path(cache_root, rel)
                && world.decodable.contains(join(image_root, rel)),
{
    lemma_pass_sourced(image_root, cache_root, world, n);
    assert(from_source(after(opening(image_root, cache_root, world), n), world, artifact));
}

/// Every regular file of the world's tree has its artifact or is no image
/// that decodes.
pub open spec fn at_rest(world: World, image_root: Seq<u8>, cache_root: Seq<u8>) -> bool {
    forall|rel: Seq<u8>| #[trigger]
        is_source_file(world.tree, rel) ==> world.cache.contains(cache_path(cache_root, rel))
            || !world.decodable.contains(join(image_root, rel))
}

/// A pass over a world at rest stays on the tree, asks for the codec only
/// on sources that do not decode, and leaves the world as it is.
pub proof fn lemma_pass_at_rest(image_root: Seq<u8>, cache_root: Seq<u8>, world: World, n: nat)
    requires
        at_rest(world, image_root, cache_root),
    ensures
        ({
            let now = after(opening(image_root, cache_root, world), n);
            &&& on_tree(now, world.tree)
            &&& now.world == world
            &&& now.walk.image_root == image_root
            &&& now.walk.cache_root == cache_root
            &&& !(now.request is Abort)
            &&& now.request matches RequestModel::Generate(job) ==> !world.decodable.contains(
                job.source,
            )
        }),
    decreases n,
{
    let first = opening(image_root, cache_root, world);
    if n == 0 {
        let chain = seq![Seq::<u8>::empty()];
        assert(descends(world.tree, chain) && chain.last() == Seq::<u8>::empty());
    } else {
        let before = after(first, (n - 1) as nat);
        lemma_pass_at_rest(image_root, cache_root, world, (n - 1) as nat);
        lemma_round_on_tree(before);
        if let RequestModel::Probe(job) = before.request {
            let rel = choose|rel: Seq<u8>| #[trigger]
                is_source_file(world.tree, rel) && job == job_for(image_root, cache_root, rel);
            assert(is_source_file(world.tree, rel));
        }
    }
}

/// A world at rest is left alone. Over a tree whose every regular file has
/// its artifact or is no image that decodes, a pass changes nothing in the
/// cache and never ends on a failure; the codec is asked for only on the
/// files that do not decode.
pub proof fn law_world_at_rest_is_left_alone(
    image_root: Seq<u8>,
    cache_root: Seq<u8>,
    world: World,
    n: nat,
)
    requires
        at_rest(world, image_root, cache_root),
    ensures
        after(opening(image_root, cache_root, world), n).world == world,
        !(after(opening(image_root, cache_root, world), n).request is Abort),
        after(opening(image_root, cache_root, world), n).request matches RequestModel::Generate(
            job,
        ) ==> !world.decodable.contains(job.source),
{
    lemma_pass_at_rest(image_root, cache_root, world, n);
}

/// A second pass changes nothing. After a complete pass over a tree, a
/// second pass over the unchanged tree leaves the cache as it is, whatever
/// the tree holds; it asks for the codec only on files that do not decode.
pub proof fn law_second_pass_changes_nothing(
    image_root: Seq<u8>,
    cache_root: Seq<u8>,
    world: World,
    first: nat,
    second: nat,
)
    requires
        after(opening(image_root, cache_root, world), first).request is Finished,
    ensures
        ({
            let between = after(opening(image_root, cache_root, world), first).world;
            let again = after(opening(image_root, cache_root, between), second);
            &&& again.world == between
            &&& !(again.request is Abort)
            &&& again.request matches RequestModel::Generate(job) ==> !world.decodable.contains(
                job.source,
            )
        }),
{
    let between = after(opening(image_root, cache_root, world), first).world;
    lemma_pass_thorough(image_root, cache_root, world, first);
    assert forall|rel: Seq<u8>| #[trigger] is_source_file(between.tree, rel) implies
        between.cache.contains(cache_path(cache_root, rel)) || !between.decodable.contains(
        join(image_root, rel),
    ) by {
        law_mirroring(image_root, cache_root, world, first, rel);
    }
    law_world_at_rest_is_left_alone(image_root, cache_root, between, second);
}

/// The cache only grows. Whatever artifact the cache holds when a pass
/// starts, it holds at every later round; the pass changes nothing in the
/// tree of sources.
pub proof fn law_artifacts_are_kept(
    image_root: Seq<u8>,
    cache_root: Seq<u8>,
    world: World,
    n: nat,
    artifact: Seq<u8>,
)
    requires
        world.cache.contains(artifact),
    ensures
        after(opening(image_root, cache_root, world), n).world.cache.contains(artifact),
        after(opening(image_root, cache_root, world), n).world.tree == world.tree,
{
    lemma_pass_thorough(image_root, cache_root, world, n);
}

/// Resilience against corrupt input, in a pass. A source that is no image
/// that decodes gets no artifact, and the pass goes on from it exactly as it
/// goes on from a source whose artifact was written: with the item that was
/// pending next.
pub proof fn law_pass_survives_corrupt_input(walk: Walk, world: World, job: JobModel)
    requires
        !world.decodable.contains(job.source),
    ensures
        answer(world, RequestModel::Generate(job)).1 == world,
        react(walk, answer(world, RequestModel::Generate(job)).0) == proceed(walk),
        react(walk, ReplyModel::Generated(Outcome::Written)) == proceed(walk),
{
}

/// Resilience against corrupt input, while watching. A source that is no
/// image that decodes gets no artifact, and the watcher is armed again for
/// the next notification, as it is after a success.
pub proof fn law_watch_survives_corrupt_input(watch: Watch, world: World, job: JobModel)
    requires
        watch.phase == Phase::Processing,
        !world.decodable.contains(job.source),
    ensures
        perform(world, job).1 == world,
        respond(watch, SignalModel::Completed(perform(world, job).0)) == (
            in_phase(watch, Phase::Armed),
            CommandModel::Await,
        ),
        respond(watch, SignalModel::Completed(Outcome::Written)) == (
            in_phase(watch, Phase::Armed),
            CommandModel::Await,
        ),
{
}

/// Creation by event. An armed watcher that is notified of the creation of
/// the file at `rel` below the image root, however deep, asks for the job
/// that a reconciling pass would ask for, whether or not the cache holds the
/// artifact already. Once the codec has run on a source that decodes, with a
/// target that can be written, the artifact is in the cache at the mapped
/// path, nothing else in the cache has changed, and the watcher is armed
/// again.
pub proof fn law_created_file_is_mirrored(
    watch: Watch,
    event: EventModel,
    rel: Seq<u8>,
    world: World,
)
    requires
        watch.phase == Phase::Armed,
        takes_up(watch.granularity, event.kind),
        event.paths.len() > 0,
        event.paths[0] == join(watch.image_root, rel),
        rel.len() > 0,
    ensures
        ({
            let job = job_for(watch.image_root, watch.cache_root, rel);
            let busy = in_phase(watch, Phase::Processing);
            let (outcome, then) = perform(world, job);
            &&& respond(watch, SignalModel::Notified(event)) == (busy, CommandModel::Generate(job))
            &&& world.decodable.contains(job.source) && world.writable.contains(job.target) ==> {
                &&& outcome == Outcome::Written
                &&& then.cache == world.cache.insert(cache_path(watch.cache_root, rel))
                &&& respond(busy, SignalModel::Completed(outcome)) == (watch, CommandModel::Await)
            }
        }),
{
    lemma_relative_join(watch.image_root, rel);
    assert(job_of(watch, event) == Some(job_for(watch.image_root, watch.cache_root, rel)));
}

} // verus!
