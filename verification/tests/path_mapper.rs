use thumbcache::path::{
    directory, file_name, find_last, joined, map_to_cache, mirrored, relative, thumbnail_name,
};

fn b(text: &str) -> Vec<u8> {
    text.as_bytes().to_vec()
}

#[test]
fn find_last_gives_the_last_occurrence() {
    assert_eq!(find_last(b"a/b/c", b'/'), Some(3));
    assert_eq!(find_last(b"/", b'/'), Some(0));
    assert_eq!(find_last(b"abc", b'/'), None);
    assert_eq!(find_last(b"", b'/'), None);
}

#[test]
fn directory_and_file_name_split_at_the_last_separator() {
    assert_eq!(directory(b"photos/sub/b.png"), b("photos/sub/"));
    assert_eq!(file_name(b"photos/sub/b.png"), b("b.png"));
    assert_eq!(directory(b"a.jpg"), b(""));
    assert_eq!(file_name(b"a.jpg"), b("a.jpg"));
    assert_eq!(directory(b"photos/"), b("photos/"));
    assert_eq!(file_name(b"photos/"), b(""));
}

#[test]
fn thumbnail_name_replaces_the_extension() {
    assert_eq!(thumbnail_name(b"a.jpg"), b("a.webp"));
    assert_eq!(thumbnail_name(b"b.png"), b("b.webp"));
    assert_eq!(thumbnail_name(b"c.txt"), b("c.webp"));
    assert_eq!(thumbnail_name(b"already.webp"), b("already.webp"));
}

#[test]
fn thumbnail_name_replaces_only_the_last_extension() {
    assert_eq!(thumbnail_name(b"archive.tar.gz"), b("archive.tar.webp"));
    assert_eq!(thumbnail_name(b"trailing."), b("trailing.webp"));
}

#[test]
fn thumbnail_name_adds_an_extension_where_there_is_none() {
    assert_eq!(thumbnail_name(b"README"), b("README.webp"));
    assert_eq!(thumbnail_name(b".hidden"), b(".hidden.webp"));
    assert_eq!(thumbnail_name(b".hidden.png"), b(".hidden.webp"));
}

#[test]
fn mirrored_keeps_the_directory() {
    assert_eq!(mirrored(b"photos/a.jpg"), b("photos/a.webp"));
    assert_eq!(mirrored(b"photos/sub/b.png"), b("photos/sub/b.webp"));
    assert_eq!(mirrored(b"top.gif"), b("top.webp"));
    assert_eq!(mirrored(b"dotted.dir/plain"), b("dotted.dir/plain.webp"));
}

#[test]
fn joined_puts_one_separator_between_root_and_path() {
    assert_eq!(joined(b"cache", b"photos/a.webp"), b("cache/photos/a.webp"));
    assert_eq!(joined(b"cache/", b"photos/a.webp"), b("cache/photos/a.webp"));
    assert_eq!(joined(b"", b"photos"), b("photos"));
    assert_eq!(joined(b"images", b""), b("images/"));
    assert_eq!(joined(b"/", b"a"), b("/a"));
}

#[test]
fn map_to_cache_mirrors_the_relative_path_under_the_cache_root() {
    assert_eq!(map_to_cache(b"cache", b"photos/a.jpg"), b("cache/photos/a.webp"));
    assert_eq!(map_to_cache(b"cache", b"photos/sub/b.png"), b("cache/photos/sub/b.webp"));
    assert_eq!(map_to_cache(b"cache", b"photos/c.txt"), b("cache/photos/c.webp"));
    assert_eq!(map_to_cache(b"/var/thumbs/", b"x.JPEG"), b("/var/thumbs/x.webp"));
}

#[test]
fn sources_that_differ_in_extension_only_share_a_cache_path() {
    assert_eq!(map_to_cache(b"cache", b"a.jpg"), map_to_cache(b"cache", b"a.png"));
}

#[test]
fn extension_normalisation_keeps_stem_and_directory() {
    let names = ["a.jpg", "a.b.c", "noext", ".dot", "x.", "weird name.PNG"];
    let dirs = ["", "photos/", "photos/sub/", "a.b/"];
    for dir in dirs {
        for name in names {
            let rel = format!("{dir}{name}");
            let mapped = map_to_cache(b"cache", rel.as_bytes());
            assert_eq!(directory(&mapped), format!("cache/{dir}").into_bytes());
            let thumb = file_name(&mapped);
            let dot = find_last(&thumb, b'.').unwrap();
            assert_eq!(&thumb[dot + 1..], b"webp");
            let kept = match find_last(name.as_bytes(), b'.') {
                Some(0) | None => name.len(),
                Some(d) => d,
            };
            assert_eq!(&thumb[..dot], &name.as_bytes()[..kept]);
        }
    }
}

#[test]
fn relative_strips_the_root() {
    assert_eq!(relative(b"images", b"images/photos/a.jpg"), Some(b("photos/a.jpg")));
    assert_eq!(relative(b"images/", b"images/photos/a.jpg"), Some(b("photos/a.jpg")));
    assert_eq!(relative(b"", b"photos/a.jpg"), Some(b("photos/a.jpg")));
    assert_eq!(relative(b"/srv/images", b"/srv/images/d.jpg"), Some(b("d.jpg")));
}

#[test]
fn relative_refuses_what_is_not_below_the_root() {
    assert_eq!(relative(b"images", b"images"), None);
    assert_eq!(relative(b"images", b"images/"), None);
    assert_eq!(relative(b"images", b"imagesque/a.jpg"), None);
    assert_eq!(relative(b"images", b"other/a.jpg"), None);
    assert_eq!(relative(b"images", b"a"), None);
    assert_eq!(relative(b"images/", b"images/"), None);
    assert_eq!(relative(b"", b""), None);
}

#[test]
fn relative_undoes_joined() {
    for root in ["images", "images/", "", "/a/b"] {
        for rel in ["a.jpg", "photos/sub/b.png", "x"] {
            let path = joined(root.as_bytes(), rel.as_bytes());
            assert_eq!(relative(root.as_bytes(), &path), Some(b(rel)));
        }
    }
}
