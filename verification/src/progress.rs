//! How far a reconciling pass is from its end.
//!
//! A pass needs one round to list a directory, two for a file whose
//! artifact is missing (the look into the cache and the codec), at most two
//! for any file. Over a tree of bounded depth this bounds the number of
//! rounds, so that every pass ends.

use crate::model::{
    after, answer, descends, ended, is_directory, known, lemma_listed_is_known,
    lemma_pass_thorough, lemma_stacked_from, lists, opening, round, Pass, Tree, World,
};
use crate::path::join;
use crate::reconcile::{proceed, stacked, Entry, EntryKind, Item, RequestModel, Walk};
use vstd::prelude::*;

verus! {

/// No directory of the tree lies deeper than `depth` directories, the image
/// root counted.
pub open spec fn no_deeper_than(tree: Tree, depth: nat) -> bool {
    forall|chain: Seq<Seq<u8>>| #[trigger] descends(tree, chain) ==> chain.len() <= depth
}

/// A bound on the rounds that the directory `dir` costs, down to `fuel`
/// levels of subdirectories below it: one for its listing, and what its
/// entries cost.
pub open spec fn dir_cost(tree: Tree, dir: Seq<u8>, fuel: nat) -> nat
    decreases fuel, (tree.listing)(dir).len() + 1,
{
    1 + entries_cost(tree, dir, (tree.listing)(dir), fuel)
}

/// A bound on the rounds that the entries of a listing of `dir` cost: two
/// for a file, its own cost for a directory, nothing for the rest.
pub open spec fn entries_cost(tree: Tree, dir: Seq<u8>, entries: Seq<Entry>, fuel: nat) -> nat
    decreases fuel, entries.len(),
{
    if entries.len() == 0 {
        0
    } else {
        let rest = entries_cost(tree, dir, entries.subrange(1, entries.len() as int), fuel);
        match entries[0].kind {
            EntryKind::File => 2 + rest,
            EntryKind::Directory => if fuel == 0 {
                rest
            } else {
                dir_cost(tree, join(dir, entries[0].name), (fuel - 1) as nat) + rest
            },
            EntryKind::Other => rest,
        }
    }
}

/// A bound on the rounds that a pending item costs.
pub open spec fn item_cost(tree: Tree, item: Item, fuel: nat) -> nat {
    if item.is_dir {
        dir_cost(tree, item.path, fuel)
    } else {
        2
    }
}

/// A bound on the rounds that the pending items cost.
pub open spec fn pending_cost(tree: Tree, items: Seq<Item>, fuel: nat) -> nat
    decreases items.len(),
{
    if items.len() == 0 {
        0
    } else {
        pending_cost(tree, items.drop_last(), fuel) + item_cost(tree, items.last(), fuel)
    }
}

/// A bound on the rounds that a request and what follows from it cost.
pub open spec fn request_cost(tree: Tree, request: RequestModel, fuel: nat) -> nat {
    match request {
        RequestModel::List { dir, path } => dir_cost(tree, dir, fuel),
        RequestModel::Probe(job) => 2,
        RequestModel::Generate(job) => 1,
        RequestModel::Finished => 0,
        RequestModel::Abort => 0,
    }
}

/// A bound on the rounds that a pass has before it, over a tree no deeper
/// than `depth`.
pub open spec fn remaining(pass: Pass, depth: nat) -> nat {
    request_cost(pass.world.tree, pass.request, depth) + pending_cost(
        pass.world.tree,
        pass.walk.pending,
        depth,
    )
}

/// Every directory that is pending or being listed is a directory of the
/// tree.
pub open spec fn inside(pass: Pass) -> bool {
    &&& forall|i: int|
        0 <= i < pass.walk.pending.len() && (#[trigger] pass.walk.pending[i]).is_dir
            ==> is_directory(pass.world.tree, pass.walk.pending[i].path)
    &&& pass.request matches RequestModel::List { dir, .. } ==> is_directory(
        pass.world.tree,
        dir,
    )
}

/// The directory that `chain` leads to, with one more directory that it
/// lists, is a chain again.
proof fn lemma_descends_further(tree: Tree, chain: Seq<Seq<u8>>, k: int)
    requires
        descends(tree, chain),
        0 <= k < (tree.listing)(chain.last()).len(),
        (tree.listing)(chain.last())[k].kind == EntryKind::Directory,
    ensures
        descends(tree, chain.push(join(chain.last(), (tree.listing)(chain.last())[k].name))),
{
    let dir = chain.last();
    let longer = chain.push(join(dir, (tree.listing)(dir)[k].name));
    assert forall|i: int| #![trigger longer[i]] 0 <= i < longer.len() - 1 implies lists(
        tree,
        longer[i],
        longer[i + 1],
        EntryKind::Directory,
    ) by {
        if i < chain.len() - 1 {
            assert(longer[i] == chain[i] && longer[i + 1] == chain[i + 1]);
        }
    }
}

/// In a tree no deeper than `depth`, the cost of a directory does not
/// depend on the fuel, once the fuel reaches as far down as the tree does.
proof fn lemma_dir_cost_stable(tree: Tree, depth: nat, chain: Seq<Seq<u8>>, fuel: nat)
    requires
        no_deeper_than(tree, depth),
        descends(tree, chain),
        fuel + chain.len() >= depth,
    ensures
        dir_cost(tree, chain.last(), fuel) == dir_cost(tree, chain.last(), fuel + 1),
    decreases fuel, (tree.listing)(chain.last()).len() + 1,
{
    lemma_entries_cost_stable(tree, depth, chain, 0, fuel);
    let listing = (tree.listing)(chain.last());
    assert(listing.subrange(0, listing.len() as int) =~= listing);
}

/// The same of the entries of the directory's listing, from the entry at
/// `from` on.
proof fn lemma_entries_cost_stable(
    tree: Tree,
    depth: nat,
    chain: Seq<Seq<u8>>,
    from: int,
    fuel: nat,
)
    requires
        no_deeper_than(tree, depth),
        descends(tree, chain),
        fuel + chain.len() >= depth,
        0 <= from <= (tree.listing)(chain.last()).len(),
    ensures
        ({
            let listing = (tree.listing)(chain.last());
            let entries = listing.subrange(from, listing.len() as int);
            entries_cost(tree, chain.last(), entries, fuel) == entries_cost(
                tree,
                chain.last(),
                entries,
                fuel + 1,
            )
        }),
    decreases fuel, (tree.listing)(chain.last()).len() - from,
{
    let dir = chain.last();
    let listing = (tree.listing)(dir);
    let entries = listing.subrange(from, listing.len() as int);
    if from < listing.len() {
        assert(entries.subrange(1, entries.len() as int) =~= listing.subrange(
            from + 1,
            listing.len() as int,
        ));
        assert(entries[0] == listing[from]);
        lemma_entries_cost_stable(tree, depth, chain, from + 1, fuel);
        if listing[from].kind == EntryKind::Directory {
            let longer = chain.push(join(dir, listing[from].name));
            lemma_descends_further(tree, chain, from);
            assert(longer.len() <= depth);
            assert(longer.last() == join(dir, listing[from].name));
            lemma_dir_cost_stable(tree, depth, longer, (fuel - 1) as nat);
        }
    }
}

/// What a listing adds to the pending items costs what its entries cost.
proof fn lemma_stacked_cost(tree: Tree, depth: nat, chain: Seq<Seq<u8>>, from: int)
    requires
        no_deeper_than(tree, depth),
        descends(tree, chain),
        0 <= from <= (tree.listing)(chain.last()).len(),
    ensures
        ({
            let listing = (tree.listing)(chain.last());
            let entries = listing.subrange(from, listing.len() as int);
            pending_cost(tree, stacked(chain.last(), entries), depth) == entries_cost(
                tree,
                chain.last(),
                entries,
                depth,
            )
        }),
    decreases (tree.listing)(chain.last()).len() - from,
{
    let dir = chain.last();
    let listing = (tree.listing)(dir);
    let entries = listing.subrange(from, listing.len() as int);
    if from < listing.len() {
        let tail = entries.subrange(1, entries.len() as int);
        assert(tail =~= listing.subrange(from + 1, listing.len() as int));
        assert(entries[0] == listing[from]);
        lemma_stacked_cost(tree, depth, chain, from + 1);
        let first = entries[0];
        if first.kind != EntryKind::Other {
            let item = Item {
                path: join(dir, first.name),
                is_dir: first.kind == EntryKind::Directory,
            };
            assert(stacked(dir, entries) == stacked(dir, tail).push(item));
            assert(stacked(dir, entries).drop_last() =~= stacked(dir, tail));
            if first.kind == EntryKind::Directory {
                let longer = chain.push(join(dir, first.name));
                lemma_descends_further(tree, chain, from);
                assert(longer.len() <= depth);
                assert(longer.last() == join(dir, first.name));
                lemma_dir_cost_stable(tree, depth, longer, (depth - 1) as nat);
            }
        }
    }
}

/// The cost of two runs of pending items is the sum of their costs.
proof fn lemma_pending_cost_add(tree: Tree, a: Seq<Item>, b: Seq<Item>, fuel: nat)
    ensures
        pending_cost(tree, a + b, fuel) == pending_cost(tree, a, fuel) + pending_cost(
            tree,
            b,
            fuel,
        ),
    decreases b.len(),
{
    if b.len() == 0 {
        assert(a + b =~= a);
    } else {
        assert((a + b).drop_last() =~= a + b.drop_last());
        lemma_pending_cost_add(tree, a, b.drop_last(), fuel);
    }
}

/// When the reconciler proceeds, the item that it takes up costs as a
/// request what it cost while it was pending, and the directories stay
/// those of the tree.
proof fn lemma_proceed_cost(walk: Walk, world: World, depth: nat)
    requires
        forall|i: int|
            0 <= i < walk.pending.len() && (#[trigger] walk.pending[i]).is_dir ==> is_directory(
                world.tree,
                walk.pending[i].path,
            ),
    ensures
        ({
            let next = Pass { walk: proceed(walk).0, request: proceed(walk).1, world };
            &&& remaining(next, depth) == pending_cost(world.tree, walk.pending, depth)
            &&& inside(next)
        }),
{
    let next = Pass { walk: proceed(walk).0, request: proceed(walk).1, world };
    if walk.pending.len() > 0 {
        assert forall|i: int|
            0 <= i < next.walk.pending.len() && (#[trigger] next.walk.pending[i]).is_dir
            implies is_directory(world.tree, next.walk.pending[i].path) by {
            assert(next.walk.pending[i] == walk.pending[i]);
        }
        assert(walk.pending.last() == walk.pending[walk.pending.len() - 1]);
    }
}

/// A round of a pass that has not ended brings the pass at least one round
/// nearer to its end.
pub proof fn lemma_round_progress(pass: Pass, depth: nat)
    requires
        no_deeper_than(pass.world.tree, depth),
        inside(pass),
        !ended(pass),
    ensures
        remaining(round(pass), depth) < remaining(pass, depth),
        inside(round(pass)),
        round(pass).world.tree == pass.world.tree,
{
    let tree = pass.world.tree;
    let (reply, world) = answer(pass.world, pass.request);
    match pass.request {
        RequestModel::List { dir, path } => {
            let chain = choose|chain: Seq<Seq<u8>>| #[trigger]
                descends(tree, chain) && chain.last() == dir;
            let entries = (tree.listing)(dir);
            let added = stacked(dir, entries);
            let grown = Walk {
                image_root: pass.walk.image_root,
                cache_root: pass.walk.cache_root,
                pending: pass.walk.pending + added,
            };
            assert(entries.subrange(0, entries.len() as int) =~= entries);
            lemma_stacked_cost(tree, depth, chain, 0);
            lemma_pending_cost_add(tree, pass.walk.pending, added, depth);
            assert forall|i: int|
                0 <= i < grown.pending.len() && (#[trigger] grown.pending[i]).is_dir
                implies is_directory(tree, grown.pending[i].path) by {
                if i >= pass.walk.pending.len() {
                    let item = grown.pending[i];
                    assert(added[i - pass.walk.pending.len()] == item);
                    lemma_stacked_from(dir, entries, item);
                    let k = choose|k: int|
                        0 <= k < entries.len() && (#[trigger] entries[k]).kind != EntryKind::Other
                            && item == (Item {
                            path: join(dir, entries[k].name),
                            is_dir: entries[k].kind == EntryKind::Directory,
                        });
                    lemma_listed_is_known(tree, dir, k);
                    assert(known(tree, item));
                } else {
                    assert(grown.pending[i] == pass.walk.pending[i]);
                }
            }
            lemma_proceed_cost(grown, world, depth);
        },
        RequestModel::Probe(job) => {
            if pass.world.cache.contains(job.target) {
                lemma_proceed_cost(pass.walk, world, depth);
            }
        },
        RequestModel::Generate(job) => {
            lemma_proceed_cost(pass.walk, world, depth);
        },
        _ => {},
    }
}

/// After `n` rounds a pass has ended, or is `n` rounds nearer to its end
/// than it was at its start.
pub proof fn lemma_pass_progress(
    image_root: Seq<u8>,
    cache_root: Seq<u8>,
    world: World,
    depth: nat,
    n: nat,
)
    requires
        no_deeper_than(world.tree, depth),
    ensures
        ({
            let first = opening(image_root, cache_root, world);
            let now = after(first, n);
            &&& now.world.tree == world.tree
            &&& inside(now)
            &&& ended(now) || remaining(now, depth) + n <= remaining(first, depth)
        }),
    decreases n,
{
    let first = opening(image_root, cache_root, world);
    if n == 0 {
        let chain = seq![Seq::<u8>::empty()];
        assert(descends(world.tree, chain) && chain.last() == Seq::<u8>::empty());
    } else {
        let before = after(first, (n - 1) as nat);
        lemma_pass_progress(image_root, cache_root, world, depth, (n - 1) as nat);
        if !ended(before) {
            lemma_round_progress(before, depth);
        }
    }
}

/// Every pass ends. Over a tree no deeper than `depth`, a pass has ended
/// after as many rounds as the image root costs, and stays ended.
pub proof fn law_pass_ends(
    image_root: Seq<u8>,
    cache_root: Seq<u8>,
    world: World,
    depth: nat,
    n: nat,
)
    requires
        no_deeper_than(world.tree, depth),
        n >= dir_cost(world.tree, Seq::empty(), depth),
    ensures
        ended(after(opening(image_root, cache_root, world), n)),
{
    let first = opening(image_root, cache_root, world);
    lemma_pass_progress(image_root, cache_root, world, depth, n);
    assert(pending_cost(world.tree, first.walk.pending, depth) == 0);
}

/// A pass is aborted only by an artifact that cannot be written: where
/// every path can be written, no round ends in an abort.
pub proof fn lemma_never_aborts(image_root: Seq<u8>, cache_root: Seq<u8>, world: World, n: nat)
    requires
        forall|path: Seq<u8>| world.writable.contains(path),
    ensures
        !(after(opening(image_root, cache_root, world), n).request is Abort),
    decreases n,
{
    if n > 0 {
        lemma_never_aborts(image_root, cache_root, world, (n - 1) as nat);
        lemma_pass_thorough(image_root, cache_root, world, (n - 1) as nat);
    }
}

/// Every pass is completed. Over a tree no deeper than `depth`, with a
/// cache in which every artifact can be written, a pass is finished after as
/// many rounds as the image root costs.
pub proof fn law_pass_completes(
    image_root: Seq<u8>,
    cache_root: Seq<u8>,
    world: World,
    depth: nat,
    n: nat,
)
    requires
        no_deeper_than(world.tree, depth),
        forall|path: Seq<u8>| world.writable.contains(path),
        n >= dir_cost(world.tree, Seq::empty(), depth),
    ensures
        after(opening(image_root, cache_root, world), n).request is Finished,
{
    law_pass_ends(image_root, cache_root, world, depth, n);
    lemma_never_aborts(image_root, cache_root, world, n);
}

} // verus!
