use std::collections::{BTreeMap, BTreeSet};
use thumbcache::config::Config;
use thumbcache::outcome::{Failure, Outcome};
use thumbcache::reconcile::{DirEntry, EntryKind, Job, Reconciler, Reply, Request};

fn b(text: &str) -> Vec<u8> {
    text.as_bytes().to_vec()
}

fn entry(name: &str, kind: EntryKind) -> DirEntry {
    DirEntry { name: b(name), kind }
}

fn job(source: &str, target: &str) -> Job {
    Job { source: b(source), target: b(target) }
}

/// A tree of sources and a cache, held in memory.
struct Disk {
    listings: BTreeMap<Vec<u8>, Vec<DirEntry>>,
    decodable: BTreeSet<Vec<u8>>,
    unwritable: BTreeSet<Vec<u8>>,
    cache: BTreeSet<Vec<u8>>,
    listed: Vec<Vec<u8>>,
    probed: Vec<Vec<u8>>,
    generated: Vec<Job>,
    rounds: usize,
}

impl Disk {
    fn new() -> Disk {
        Disk {
            listings: BTreeMap::new(),
            decodable: BTreeSet::new(),
            unwritable: BTreeSet::new(),
            cache: BTreeSet::new(),
            listed: Vec::new(),
            probed: Vec::new(),
            generated: Vec::new(),
            rounds: 0,
        }
    }

    fn dir(&mut self, rel: &str, entries: Vec<DirEntry>) {
        self.listings.insert(b(rel), entries);
    }

    fn image(&mut self, path: &str) {
        self.decodable.insert(b(path));
    }

    fn codec(&mut self, job: &Job) -> Outcome {
        self.generated.push(job.clone());
        if !self.decodable.contains(&job.source) {
            Outcome::Failed(Failure::Undecodable)
        } else if self.unwritable.contains(&job.target) {
            Outcome::Failed(Failure::CacheUnwritable)
        } else {
            self.cache.insert(job.target.clone());
            Outcome::Written
        }
    }

    /// Runs one pass to its end and gives the request that ended it.
    fn pass(&mut self, image_root: &str, cache_root: &str) -> Request {
        self.listed.clear();
        self.probed.clear();
        self.generated.clear();
        self.rounds = 0;
        let (mut pass, mut request) = Reconciler::begin(b(image_root), b(cache_root));
        loop {
            let reply = match request {
                Request::List { dir, path } => {
                    self.listed.push(path);
                    let entries = self.listings.get(&dir).cloned().unwrap_or_default();
                    Reply::Listed { dir, entries }
                }
                Request::Probe(job) => {
                    self.probed.push(job.source.clone());
                    let exists = self.cache.contains(&job.target);
                    Reply::Probed { job, exists }
                }
                Request::Generate(job) => Reply::Generated(self.codec(&job)),
                Request::Finished | Request::Abort => return request,
            };
            request = pass.advance(reply);
            self.rounds += 1;
        }
    }
}

/// `photos/a.jpg` and `photos/sub/b.png` are images, `photos/c.txt` is not.
fn three_files() -> Disk {
    let mut disk = Disk::new();
    disk.dir("", vec![entry("photos", EntryKind::Directory)]);
    disk.dir(
        "photos",
        vec![
            entry("a.jpg", EntryKind::File),
            entry("sub", EntryKind::Directory),
            entry("c.txt", EntryKind::File),
        ],
    );
    disk.dir("photos/sub", vec![entry("b.png", EntryKind::File)]);
    disk.image("images/photos/a.jpg");
    disk.image("images/photos/sub/b.png");
    disk
}

#[test]
fn begin_asks_for_the_listing_of_the_image_root() {
    let (_, request) = Reconciler::begin(b("images"), b("cache"));
    assert_eq!(request, Request::List { dir: b(""), path: b("images/") });
}

#[test]
fn empty_root_finishes_at_once() {
    let (mut pass, _) = Reconciler::begin(b("images"), b("cache"));
    let request = pass.advance(Reply::Listed { dir: b(""), entries: Vec::new() });
    assert_eq!(request, Request::Finished);
}

#[test]
fn file_is_probed_at_its_cache_path() {
    let (mut pass, _) = Reconciler::begin(b("images"), b("cache"));
    let request =
        pass.advance(Reply::Listed { dir: b(""), entries: vec![entry("a.jpg", EntryKind::File)] });
    assert_eq!(request, Request::Probe(job("images/a.jpg", "cache/a.webp")));
}

#[test]
fn missing_artifact_is_generated() {
    let (mut pass, _) = Reconciler::begin(b("images"), b("cache"));
    pass.advance(Reply::Listed { dir: b(""), entries: vec![entry("a.jpg", EntryKind::File)] });
    let wanted = job("images/a.jpg", "cache/a.webp");
    let request = pass.advance(Reply::Probed { job: wanted.clone(), exists: false });
    assert_eq!(request, Request::Generate(wanted));
    assert_eq!(pass.advance(Reply::Generated(Outcome::Written)), Request::Finished);
}

#[test]
fn existing_artifact_is_skipped() {
    let (mut pass, _) = Reconciler::begin(b("images"), b("cache"));
    pass.advance(Reply::Listed {
        dir: b(""),
        entries: vec![entry("a.jpg", EntryKind::File), entry("b.jpg", EntryKind::File)],
    });
    let request =
        pass.advance(Reply::Probed { job: job("images/a.jpg", "cache/a.webp"), exists: true });
    assert_eq!(request, Request::Probe(job("images/b.jpg", "cache/b.webp")));
}

#[test]
fn other_kinds_are_skipped() {
    let (mut pass, _) = Reconciler::begin(b("images"), b("cache"));
    let request = pass.advance(Reply::Listed {
        dir: b(""),
        entries: vec![
            entry("link", EntryKind::Other),
            entry("socket", EntryKind::Other),
            entry("z.png", EntryKind::File),
            entry("fifo", EntryKind::Other),
        ],
    });
    assert_eq!(request, Request::Probe(job("images/z.png", "cache/z.webp")));
    let request =
        pass.advance(Reply::Probed { job: job("images/z.png", "cache/z.webp"), exists: true });
    assert_eq!(request, Request::Finished);
}

#[test]
fn directory_is_walked_before_the_entry_that_follows_it() {
    let mut disk = three_files();
    assert_eq!(disk.pass("images", "cache"), Request::Finished);
    assert_eq!(disk.listed, vec![b("images/"), b("images/photos"), b("images/photos/sub")]);
    assert_eq!(
        disk.probed,
        vec![b("images/photos/a.jpg"), b("images/photos/sub/b.png"), b("images/photos/c.txt")]
    );
}

#[test]
fn pass_mirrors_the_tree_into_the_cache() {
    let mut disk = three_files();
    assert_eq!(disk.pass("images", "cache"), Request::Finished);
    assert!(disk.cache.contains(&b("cache/photos/a.webp")));
    assert!(disk.cache.contains(&b("cache/photos/sub/b.webp")));
    assert!(!disk.cache.contains(&b("cache/photos/c.webp")));
    assert_eq!(disk.cache.len(), 2);
}

#[test]
fn corrupt_file_does_not_stop_the_files_after_it() {
    let mut disk = Disk::new();
    disk.dir(
        "",
        vec![
            entry("empty.jpg", EntryKind::File),
            entry("garbage.png", EntryKind::File),
            entry("good.gif", EntryKind::File),
        ],
    );
    disk.image("images/good.gif");
    assert_eq!(disk.pass("images", "cache"), Request::Finished);
    assert_eq!(disk.generated.len(), 3);
    assert_eq!(disk.cache.iter().cloned().collect::<Vec<_>>(), vec![b("cache/good.webp")]);
}

#[test]
fn unreadable_source_does_not_stop_the_pass() {
    let (mut pass, _) = Reconciler::begin(b("images"), b("cache"));
    pass.advance(Reply::Listed {
        dir: b(""),
        entries: vec![entry("gone.jpg", EntryKind::File), entry("here.jpg", EntryKind::File)],
    });
    pass.advance(Reply::Probed { job: job("images/gone.jpg", "cache/gone.webp"), exists: false });
    let request = pass.advance(Reply::Generated(Outcome::Failed(Failure::SourceUnreadable)));
    assert_eq!(request, Request::Probe(job("images/here.jpg", "cache/here.webp")));
}

#[test]
fn write_failure_aborts_the_pass() {
    let mut disk = three_files();
    disk.unwritable.insert(b("cache/photos/a.webp"));
    assert_eq!(disk.pass("images", "cache"), Request::Abort);
    assert_eq!(disk.generated, vec![job("images/photos/a.jpg", "cache/photos/a.webp")]);
    assert!(disk.cache.is_empty());
}

#[test]
fn second_pass_on_an_unchanged_tree_of_images_runs_no_codec() {
    let mut disk = three_files();
    disk.image("images/photos/c.txt");
    assert_eq!(disk.pass("images", "cache"), Request::Finished);
    assert_eq!(disk.generated.len(), 3);
    let cache = disk.cache.clone();
    assert_eq!(disk.pass("images", "cache"), Request::Finished);
    assert!(disk.generated.is_empty());
    assert_eq!(disk.probed.len(), 3);
    assert_eq!(disk.cache, cache);
}

#[test]
fn second_pass_tries_again_only_what_did_not_decode() {
    let mut disk = three_files();
    assert_eq!(disk.pass("images", "cache"), Request::Finished);
    assert_eq!(disk.generated.len(), 3);
    let cache = disk.cache.clone();
    assert_eq!(disk.pass("images", "cache"), Request::Finished);
    assert_eq!(disk.generated, vec![job("images/photos/c.txt", "cache/photos/c.webp")]);
    assert_eq!(disk.cache, cache);
}

#[test]
fn every_new_artifact_is_the_thumbnail_of_an_image_of_the_tree() {
    let mut disk = three_files();
    disk.image("images/elsewhere/x.png");
    disk.cache.insert(b("cache/stale/old.webp"));
    assert_eq!(disk.pass("images", "cache"), Request::Finished);
    let added: Vec<Vec<u8>> =
        disk.cache.iter().filter(|p| **p != b("cache/stale/old.webp")).cloned().collect();
    assert_eq!(added, vec![b("cache/photos/a.webp"), b("cache/photos/sub/b.webp")]);
}

#[test]
fn pass_fills_in_only_what_is_missing() {
    let mut disk = three_files();
    disk.cache.insert(b("cache/photos/a.webp"));
    disk.cache.insert(b("cache/stale/old.webp"));
    assert_eq!(disk.pass("images", "cache"), Request::Finished);
    assert_eq!(
        disk.generated,
        vec![
            job("images/photos/sub/b.png", "cache/photos/sub/b.webp"),
            job("images/photos/c.txt", "cache/photos/c.webp"),
        ]
    );
    assert!(disk.cache.contains(&b("cache/stale/old.webp")));
}

#[test]
fn colliding_sources_are_generated_once() {
    let mut disk = Disk::new();
    disk.dir("", vec![entry("a.jpg", EntryKind::File), entry("a.png", EntryKind::File)]);
    disk.image("images/a.jpg");
    disk.image("images/a.png");
    assert_eq!(disk.pass("images", "cache"), Request::Finished);
    assert_eq!(disk.generated, vec![job("images/a.jpg", "cache/a.webp")]);
}

#[test]
fn colliding_source_is_tried_when_the_first_did_not_decode() {
    let mut disk = Disk::new();
    disk.dir("", vec![entry("a.jpg", EntryKind::File), entry("a.png", EntryKind::File)]);
    disk.image("images/a.png");
    assert_eq!(disk.pass("images", "cache"), Request::Finished);
    assert_eq!(disk.generated.len(), 2);
    assert!(disk.cache.contains(&b("cache/a.webp")));
}

#[test]
fn deep_tree_is_walked_to_the_bottom() {
    let mut disk = Disk::new();
    let mut rel = String::new();
    for depth in 0..40 {
        let name = format!("d{depth}");
        disk.dir(&rel, vec![entry(&name, EntryKind::Directory), entry("x.png", EntryKind::File)]);
        let image = if rel.is_empty() { "images/x.png".to_string() } else { format!("images/{rel}/x.png") };
        disk.image(&image);
        rel = if rel.is_empty() { name } else { format!("{rel}/{name}") };
    }
    assert_eq!(disk.pass("images", "cache"), Request::Finished);
    assert_eq!(disk.cache.len(), 40);
    assert_eq!(disk.listed.len(), 41);
}

#[test]
fn pass_ends_after_one_round_per_listing_and_two_per_missing_artifact() {
    let mut disk = three_files();
    assert_eq!(disk.pass("images", "cache"), Request::Finished);
    assert_eq!(disk.rounds, 3 + 2 * 3);
    assert_eq!(disk.pass("images", "cache"), Request::Finished);
    assert_eq!(disk.rounds, 3 + 2 + 2 * 1);
}

#[test]
fn config_starts_a_pass_over_its_roots() {
    let config = Config { static_root: b("static"), image_root: b("images"), cache_root: b("cache") };
    let (mut pass, request) = config.reconciler();
    assert_eq!(request, Request::List { dir: b(""), path: b("images/") });
    let request =
        pass.advance(Reply::Listed { dir: b(""), entries: vec![entry("a.jpg", EntryKind::File)] });
    assert_eq!(request, Request::Probe(job("images/a.jpg", "cache/a.webp")));
}

#[test]
fn config_names_the_directories_to_create() {
    let config = Config { static_root: b("static"), image_root: b("images"), cache_root: b("cache") };
    assert_eq!(config.directories(), vec![b("static"), b("images"), b("cache")]);
}
