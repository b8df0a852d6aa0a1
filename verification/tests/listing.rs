use thumbcache::listing::{card, cards, Card};
use thumbcache::reconcile::{DirEntry, EntryKind};

fn entry(name: &str, kind: EntryKind) -> DirEntry {
    DirEntry { name: name.as_bytes().to_vec(), kind }
}

fn tile(original: &str, thumbnail: &str, name: &str) -> Card {
    Card {
        original: original.as_bytes().to_vec(),
        thumbnail: thumbnail.as_bytes().to_vec(),
        name: name.as_bytes().to_vec(),
    }
}

#[test]
fn file_at_the_root_shows_its_thumbnail() {
    assert_eq!(
        card(b"", &entry("a.jpg", EntryKind::File)),
        Some(tile("/static/images/a.jpg", "/static/thumbnails/a.webp", "a.jpg"))
    );
}

#[test]
fn file_in_a_subdirectory_shows_the_mirrored_thumbnail() {
    assert_eq!(
        card(b"photos/sub", &entry("b.png", EntryKind::File)),
        Some(tile(
            "/static/images/photos/sub/b.png",
            "/static/thumbnails/photos/sub/b.webp",
            "b.png"
        ))
    );
}

#[test]
fn directory_shows_the_folder_icon() {
    assert_eq!(
        card(b"", &entry("photos", EntryKind::Directory)),
        Some(tile("/gallery/photos", "/static/assets/folder.svg", "photos"))
    );
    assert_eq!(
        card(b"photos", &entry("sub", EntryKind::Directory)),
        Some(tile("/gallery/photos/sub", "/static/assets/folder.svg", "sub"))
    );
}

#[test]
fn other_entries_have_no_tile() {
    assert_eq!(card(b"photos", &entry("socket", EntryKind::Other)), None);
}

#[test]
fn page_keeps_the_order_of_the_listing() {
    let entries = vec![
        entry("a.jpg", EntryKind::File),
        entry("link", EntryKind::Other),
        entry("sub", EntryKind::Directory),
        entry("c.txt", EntryKind::File),
    ];
    assert_eq!(
        cards(b"photos", &entries),
        vec![
            tile("/static/images/photos/a.jpg", "/static/thumbnails/photos/a.webp", "a.jpg"),
            tile("/gallery/photos/sub", "/static/assets/folder.svg", "sub"),
            tile("/static/images/photos/c.txt", "/static/thumbnails/photos/c.webp", "c.txt"),
        ]
    );
}

#[test]
fn empty_directory_gives_an_empty_page() {
    assert_eq!(cards(b"photos", &Vec::new()), Vec::new());
}
