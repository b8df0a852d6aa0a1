//! What a gallery page shows of a directory of the image tree: for each
//! file the address of the original and of its thumbnail, for each
//! subdirectory the address of its own page.
//!
//! The addresses are those under which the serving layer publishes the three
//! roots: the originals below `/static/images/`, the cache below
//! `/static/thumbnails/`, the pages below `/gallery/`.

use crate::path::{join, joined, mirror, mirrored};
use crate::reconcile::{entries_view, DirEntry, Entry, EntryKind};
use vstd::prelude::*;
use vstd::string::StringSliceAdditionalSpecFns;

verus! {

/// The address below which the originals are published.
pub open spec fn images_url() -> Seq<u8> {
    "/static/images/".spec_bytes()
}

/// The address below which the thumbnails are published.
pub open spec fn thumbnails_url() -> Seq<u8> {
    "/static/thumbnails/".spec_bytes()
}

/// The address below which the pages of the gallery are published.
pub open spec fn gallery_url() -> Seq<u8> {
    "/gallery/".spec_bytes()
}

/// The address of the picture that stands for a directory.
pub open spec fn folder_icon_url() -> Seq<u8> {
    "/static/assets/folder.svg".spec_bytes()
}

/// One tile of a gallery page.
#[derive(Clone, PartialEq, Eq, Debug)]
pub struct Card {
    /// Where a click on the tile leads: the original of a file, the page of
    /// a directory.
    pub original: Vec<u8>,
    /// The picture on the tile.
    pub thumbnail: Vec<u8>,
    /// The name under the tile.
    pub name: Vec<u8>,
}

/// A tile, as the contracts see it.
pub struct CardModel {
    pub original: Seq<u8>,
    pub thumbnail: Seq<u8>,
    pub name: Seq<u8>,
}

impl View for Card {
    type V = CardModel;

    open spec fn view(&self) -> CardModel {
        CardModel { original: self.original@, thumbnail: self.thumbnail@, name: self.name@ }
    }
}

/// The tiles of a page, as the contracts see them.
pub open spec fn cards_view(cards: Seq<Card>) -> Seq<CardModel> {
    cards.map_values(|c: Card| c@)
}

/// The tile for an entry of the directory `dir`, which is given relative to
/// the image root. A file shows its thumbnail, which lies in the cache where
/// the file lies in the image tree, and leads to its original. A directory
/// shows the folder icon and leads to its page. Other entries have no tile.
pub open spec fn card_of(dir: Seq<u8>, entry: Entry) -> Option<CardModel> {
    let rel = join(dir, entry.name);
    match entry.kind {
        EntryKind::File => Some(
            CardModel {
                original: images_url() + rel,
                thumbnail: thumbnails_url() + mirror(rel),
                name: entry.name,
            },
        ),
        EntryKind::Directory => Some(
            CardModel {
                original: gallery_url() + rel,
                thumbnail: folder_icon_url(),
                name: entry.name,
            },
        ),
        EntryKind::Other => None,
    }
}

/// The tiles for the entries of the directory `dir`, in the order of the
/// listing.
pub open spec fn cards_of(dir: Seq<u8>, entries: Seq<Entry>) -> Seq<CardModel>
    decreases entries.len(),
{
    if entries.len() == 0 {
        Seq::empty()
    } else {
        let before = cards_of(dir, entries.drop_last());
        match card_of(dir, entries.last()) {
            Some(card) => before.push(card),
            None => before,
        }
    }
}

/// The address made of `prefix` and the path `rel`.
fn address(prefix: &str, rel: &[u8]) -> (url: Vec<u8>)
    ensures
        url@ == prefix.spec_bytes() + rel@,
{
    let mut url = vstd::slice::slice_to_vec(prefix.as_bytes());
    url.extend_from_slice(rel);
    url
}

/// The tile for `entry` of the directory `dir`, if it has one.
pub fn card(dir: &[u8], entry: &DirEntry) -> (c: Option<Card>)
    ensures
        match c {
            Some(card) => card_of(dir@, entry@) == Some(card@),
            None => card_of(dir@, entry@) is None,
        },
{
    match entry.kind {
        EntryKind::File => {
            let rel = joined(dir, entry.name.as_slice());
            let thumb = mirrored(rel.as_slice());
            Some(
                Card {
                    original: address("/static/images/", rel.as_slice()),
                    thumbnail: address("/static/thumbnails/", thumb.as_slice()),
                    name: entry.name.clone(),
                },
            )
        },
        EntryKind::Directory => {
            let rel = joined(dir, entry.name.as_slice());
            let none: Vec<u8> = Vec::new();
            let icon = address("/static/assets/folder.svg", none.as_slice());
            assert(icon@ =~= folder_icon_url());
            Some(
                Card {
                    original: address("/gallery/", rel.as_slice()),
                    thumbnail: icon,
                    name: entry.name.clone(),
                },
            )
        },
        EntryKind::Other => None,
    }
}

/// The tiles of the page for the directory `dir`, whose listing is
/// `entries`.
pub fn cards(dir: &[u8], entries: &Vec<DirEntry>) -> (page: Vec<Card>)
    ensures
        cards_view(page@) == cards_of(dir@, entries_view(entries@)),
{
    let mut page: Vec<Card> = Vec::new();
    let ghost all = entries_view(entries@);
    assert(all.subrange(0, 0) =~= Seq::<Entry>::empty());
    assert(cards_view(page@) =~= Seq::<CardModel>::empty());
    let mut i: usize = 0;
    while i < entries.len()
        invariant
            i <= entries.len(),
            all == entries_view(entries@),
            cards_view(page@) == cards_of(dir@, all.subrange(0, i as int)),
        decreases entries.len() - i,
    {
        let ghost before = cards_view(page@);
        proof {
            let upto = all.subrange(0, i + 1);
            assert(upto.drop_last() =~= all.subrange(0, i as int));
            assert(upto.last() == entries@[i as int]@);
        }
        match card(dir, &entries[i]) {
            Some(c) => {
                page.push(c);
                assert(cards_view(page@) =~= before.push(c@));
            },
            None => {},
        }
        i += 1;
    }
    assert(all.subrange(0, i as int) =~= all);
    page
}

} // verus!
