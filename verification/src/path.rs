//! The path mapper: where in the cache tree the thumbnail of a source image lives.
//!
//! Paths are byte strings whose components are separated by `/`, as the
//! operating system hands them out. A source image is named by its path
//! relative to the image root; its thumbnail has the same relative
//! directory and the same stem, under the cache root, with the extension of
//! the cache format.

use vstd::prelude::*;

verus! {

/// The byte that separates the components of a path (`/`).
pub const SEPARATOR: u8 = 47;

/// The byte that sets an extension off from a stem (`.`).
pub const DOT: u8 = 46;

/// The extension of every thumbnail: the bytes of `webp`.
pub open spec fn cache_extension() -> Seq<u8> {
    seq![119u8, 101u8, 98u8, 112u8]
}

/// The index of the last occurrence of `b` in `s`, or -1 where `s` holds none.
pub open spec fn last_index_of(s: Seq<u8>, b: u8) -> int
    decreases s.len(),
{
    if s.len() == 0 {
        -1
    } else if s.last() == b {
        s.len() - 1
    } else {
        last_index_of(s.drop_last(), b)
    }
}

/// Where the file name of `p` starts: just past its last separator.
pub open spec fn name_start(p: Seq<u8>) -> int {
    last_index_of(p, SEPARATOR) + 1
}

/// The directory part of `p`: everything up to and including its last
/// separator; empty where `p` holds no separator.
pub open spec fn dir_of(p: Seq<u8>) -> Seq<u8> {
    p.subrange(0, name_start(p))
}

/// The file name of `p`: what follows its last separator.
pub open spec fn name_of(p: Seq<u8>) -> Seq<u8> {
    p.subrange(name_start(p), p.len() as int)
}

/// The length of the stem of a file name. The stem ends before the name's
/// last dot; a name without a dot, or whose only dot is its first byte, is
/// all stem.
pub open spec fn stem_len(name: Seq<u8>) -> int {
    let d = last_index_of(name, DOT);
    if d <= 0 {
        name.len() as int
    } else {
        d
    }
}

/// The stem of a file name.
pub open spec fn stem_of(name: Seq<u8>) -> Seq<u8> {
    name.subrange(0, stem_len(name))
}

/// The extension of a file name: what follows its last dot, if the name has
/// a dot beyond its first byte.
pub open spec fn extension_of(name: Seq<u8>) -> Option<Seq<u8>> {
    let d = last_index_of(name, DOT);
    if d <= 0 {
        None
    } else {
        Some(name.subrange(d + 1, name.len() as int))
    }
}

/// The name of the thumbnail of a file called `name`: its stem, a dot and the
/// cache extension.
pub open spec fn cache_name(name: Seq<u8>) -> Seq<u8> {
    stem_of(name).push(DOT) + cache_extension()
}

/// The relative path `rel` with its extension replaced by the cache
/// extension: the same directory, the thumbnail's name.
pub open spec fn mirror(rel: Seq<u8>) -> Seq<u8> {
    dir_of(rel) + cache_name(name_of(rel))
}

/// `root` as a prefix of the paths below it: `root` itself where it is empty
/// or ends in a separator, else `root` and a separator.
pub open spec fn dir_prefix(root: Seq<u8>) -> Seq<u8> {
    if root.len() == 0 || root.last() == SEPARATOR {
        root
    } else {
        root.push(SEPARATOR)
    }
}

/// The path `rel` below the directory `root`.
pub open spec fn join(root: Seq<u8>, rel: Seq<u8>) -> Seq<u8> {
    dir_prefix(root) + rel
}

/// The cache path of the source image at `rel` below the image root.
pub open spec fn cache_path(cache_root: Seq<u8>, rel: Seq<u8>) -> Seq<u8> {
    join(cache_root, mirror(rel))
}

/// What `path` is called relative to `root`, if it lies strictly below it.
pub open spec fn relative_to(root: Seq<u8>, path: Seq<u8>) -> Option<Seq<u8>> {
    let prefix = dir_prefix(root);
    if prefix.len() < path.len() && path.subrange(0, prefix.len() as int) == prefix {
        Some(path.subrange(prefix.len() as int, path.len() as int))
    } else {
        None
    }
}

/// `last_index_of` finds an occurrence of `b`, and none follows it.
pub proof fn lemma_last_index_of(s: Seq<u8>, b: u8)
    ensures
        -1 <= last_index_of(s, b) < s.len(),
        last_index_of(s, b) >= 0 ==> s[last_index_of(s, b)] == b,
        forall|j: int| last_index_of(s, b) < j < s.len() ==> s[j] != b,
    decreases s.len(),
{
    if s.len() != 0 && s.last() != b {
        let t = s.drop_last();
        lemma_last_index_of(t, b);
        assert forall|j: int| last_index_of(s, b) < j < s.len() implies s[j] != b by {
            if j < t.len() {
                assert(t[j] == s[j]);
            }
        }
    }
}

/// An index at which `b` stands, or -1, after which no `b` follows, is the
/// one that `last_index_of` gives.
pub proof fn lemma_last_index_of_unique(s: Seq<u8>, b: u8, i: int)
    requires
        -1 <= i < s.len(),
        i >= 0 ==> s[i] == b,
        forall|j: int| i < j < s.len() ==> s[j] != b,
    ensures
        last_index_of(s, b) == i,
{
    lemma_last_index_of(s, b);
}

/// A path made of a directory part, empty or closed by a separator, and a
/// name without separator splits into just these two.
pub proof fn lemma_split(dir: Seq<u8>, name: Seq<u8>)
    requires
        dir.len() == 0 || dir.last() == SEPARATOR,
        forall|j: int| 0 <= j < name.len() ==> name[j] != SEPARATOR,
    ensures
        dir_of(dir + name) == dir,
        name_of(dir + name) == name,
{
    let p = dir + name;
    lemma_last_index_of_unique(p, SEPARATOR, dir.len() - 1);
    assert(p.subrange(0, dir.len() as int) =~= dir);
    assert(p.subrange(dir.len() as int, p.len() as int) =~= name);
}

/// A file name holds no separator, and the directory part is empty or
/// closed by one.
pub proof fn lemma_parts(p: Seq<u8>)
    ensures
        dir_of(p).len() == 0 || dir_of(p).last() == SEPARATOR,
        forall|j: int| 0 <= j < name_of(p).len() ==> name_of(p)[j] != SEPARATOR,
        dir_of(p) + name_of(p) == p,
{
    lemma_last_index_of(p, SEPARATOR);
    assert(dir_of(p) + name_of(p) =~= p);
}

/// The thumbnail's name of a file with a name: the same stem, the cache
/// extension.
pub proof fn lemma_cache_name(name: Seq<u8>)
    requires
        name.len() > 0,
    ensures
        stem_of(cache_name(name)) == stem_of(name),
        extension_of(cache_name(name)) == Some(cache_extension()),
        stem_of(name).len() > 0,
{
    lemma_last_index_of(name, DOT);
    let stem = stem_of(name);
    let thumb = cache_name(name);
    assert(thumb.len() == stem.len() + 5);
    assert(thumb[stem.len() as int] == DOT);
    lemma_last_index_of_unique(thumb, DOT, stem.len() as int);
    assert(thumb.subrange(0, stem.len() as int) =~= stem);
    assert(thumb.subrange(stem.len() as int + 1, thumb.len() as int) =~= cache_extension());
}

/// Extension normalisation. Whatever the extension of a source file, its
/// thumbnail keeps the file's relative directory and stem and has the cache
/// extension; under the cache root it lies in the directory that mirrors the
/// file's own.
pub proof fn law_extension_normalized(cache_root: Seq<u8>, rel: Seq<u8>)
    requires
        name_of(rel).len() > 0,
    ensures
        dir_of(mirror(rel)) == dir_of(rel),
        stem_of(name_of(mirror(rel))) == stem_of(name_of(rel)),
        extension_of(name_of(mirror(rel))) == Some(cache_extension()),
        dir_of(cache_path(cache_root, rel)) == join(cache_root, dir_of(rel)),
        name_of(cache_path(cache_root, rel)) == name_of(mirror(rel)),
{
    let name = name_of(rel);
    let thumb = cache_name(name);
    lemma_parts(rel);
    lemma_cache_name(name);
    lemma_last_index_of(name, DOT);
    let stem = stem_of(name);
    assert(thumb.len() == stem.len() + 5);
    assert forall|j: int| 0 <= j < thumb.len() implies thumb[j] != SEPARATOR by {
        if j < stem.len() {
            assert(thumb[j] == stem[j] && stem[j] == name[j]);
        } else if j > stem.len() {
            assert(thumb[j] == cache_extension()[j - stem.len() - 1]);
        }
    }
    lemma_split(dir_of(rel), thumb);
    let below = dir_prefix(cache_root) + dir_of(rel);
    assert(cache_path(cache_root, rel) =~= below + thumb);
    lemma_split(below, thumb);
}

/// A path below `root` is called, relative to `root`, what it was joined
/// from.
pub proof fn lemma_relative_join(root: Seq<u8>, rel: Seq<u8>)
    requires
        rel.len() > 0,
    ensures
        relative_to(root, join(root, rel)) == Some(rel),
{
    let prefix = dir_prefix(root);
    let path = join(root, rel);
    assert(path.subrange(0, prefix.len() as int) =~= prefix);
    assert(path.subrange(prefix.len() as int, path.len() as int) =~= rel);
}

/// The last occurrence of `b` in `s`.
pub fn find_last(s: &[u8], b: u8) -> (r: Option<usize>)
    ensures
        r is Some ==> r->0 < s.len() && r->0 as int == last_index_of(s@, b),
        r is None ==> last_index_of(s@, b) == -1,
{
    let mut i: usize = s.len();
    while i > 0
        invariant
            i <= s.len(),
            forall|j: int| i <= j < s.len() ==> s@[j] != b,
        decreases i,
    {
        i -= 1;
        if s[i] == b {
            proof {
                lemma_last_index_of_unique(s@, b, i as int);
            }
            return Some(i);
        }
    }
    proof {
        lemma_last_index_of_unique(s@, b, -1);
    }
    None
}

/// The bytes of `s` from `from` up to `to`, in a vector of their own.
fn copy_range(s: &[u8], from: usize, to: usize) -> (v: Vec<u8>)
    requires
        from <= to <= s.len(),
    ensures
        v@ == s@.subrange(from as int, to as int),
{
    vstd::slice::slice_to_vec(vstd::slice::slice_subrange(s, from, to))
}

/// The directory part of `p`, with its closing separator.
pub fn directory(p: &[u8]) -> (d: Vec<u8>)
    ensures
        d@ == dir_of(p@),
{
    match find_last(p, SEPARATOR) {
        Some(i) => copy_range(p, 0, i + 1),
        None => Vec::new(),
    }
}

/// The file name of `p`.
pub fn file_name(p: &[u8]) -> (n: Vec<u8>)
    ensures
        n@ == name_of(p@),
{
    match find_last(p, SEPARATOR) {
        Some(i) => copy_range(p, i + 1, p.len()),
        None => copy_range(p, 0, p.len()),
    }
}

/// The name under which the thumbnail of a file called `name` is kept.
pub fn thumbnail_name(name: &[u8]) -> (n: Vec<u8>)
    ensures
        n@ == cache_name(name@),
{
    let keep: usize = match find_last(name, DOT) {
        Some(d) => if d == 0 {
            name.len()
        } else {
            d
        },
        None => name.len(),
    };
    let mut n = copy_range(name, 0, keep);
    n.push(DOT);
    n.push(119u8);
    n.push(101u8);
    n.push(98u8);
    n.push(112u8);
    n
}

/// The relative path of the thumbnail of the source image at `rel`.
pub fn mirrored(rel: &[u8]) -> (m: Vec<u8>)
    ensures
        m@ == mirror(rel@),
{
    let mut m = directory(rel);
    let name = file_name(rel);
    let thumb = thumbnail_name(name.as_slice());
    m.extend_from_slice(thumb.as_slice());
    m
}

/// The path `rel` below the directory `root`.
pub fn joined(root: &[u8], rel: &[u8]) -> (p: Vec<u8>)
    ensures
        p@ == join(root@, rel@),
{
    let mut p = copy_range(root, 0, root.len());
    if root.len() > 0 && root[root.len() - 1] != SEPARATOR {
        p.push(SEPARATOR);
    }
    p.extend_from_slice(rel);
    p
}

/// The cache path of the source image at `rel` below
/// the image root, for a cache rooted at `cache_root`.
pub fn map_to_cache(cache_root: &[u8], rel: &[u8]) -> (p: Vec<u8>)
    ensures
        p@ == cache_path(cache_root@, rel@),
{
    let m = mirrored(rel);
    joined(cache_root, m.as_slice())
}

/// The name of `path` relative to `root`, or `None` where `path` does not lie
/// strictly below `root`.
pub fn relative(root: &[u8], path: &[u8]) -> (r: Option<Vec<u8>>)
    ensures
        match r {
            Some(rel) => relative_to(root@, path@) == Some(rel@),
            None => relative_to(root@, path@) is None,
        },
{
    let bare = root.len() > 0 && root[root.len() - 1] != SEPARATOR;
    let n: usize = root.len();
    if bare {
        if path.len() <= n || path.len() - n <= 1 {
            return None;
        }
    } else if path.len() <= n {
        return None;
    }
    let mut i: usize = 0;
    while i < n
        invariant
            i <= n,
            n == root.len(),
            n < path.len(),
            forall|j: int| 0 <= j < i ==> path@[j] == root@[j],
        decreases n - i,
    {
        if path[i] != root[i] {
            assert(path@.subrange(0, dir_prefix(root@).len() as int)[i as int] != dir_prefix(
                root@,
            )[i as int]);
            return None;
        }
        i += 1;
    }
    if bare {
        if path[n] != SEPARATOR {
            assert(path@.subrange(0, dir_prefix(root@).len() as int)[n as int] != dir_prefix(
                root@,
            )[n as int]);
            return None;
        }
        assert(path@.subrange(0, n + 1) =~= dir_prefix(root@));
        Some(copy_range(path, n + 1, path.len()))
    } else {
        assert(path@.subrange(0, n as int) =~= dir_prefix(root@));
        Some(copy_range(path, n, path.len()))
    }
}

} // verus!
