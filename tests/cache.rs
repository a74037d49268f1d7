use std::cell::Cell;

use sshfuse::{
    listing_path, parse_long_list_in_year, path_key, DirectoryEntry, FileKind, FileMeta, FsError,
    MetaCache, TTL_MILLIS,
};

struct TestRunner {
    count: Cell<u32>,
}

impl TestRunner {
    fn fetch_path(&self, path: &str) -> Option<Vec<FileMeta>> {
        self.count.set(self.count.get() + 1);
        match path {
            "/" => {
                let ls = r"total 128
                    drwxr-xr-x   2 root root  4096 Mar  3 23:27 bin
                    drwxr-xr-x   3 root root  4096 Jun 25 06:00 boot
                    drwxr-xr-x  14 root root  3160 Dec 17  2020 dev
                    drwxr-xr-x 105 root root  4096 Jun 25 21:26 etc";
                Some(parse_long_list_in_year(ls, 2021))
            }
            "/boot/" => {
                let ls = r"total 128M
                    -rw------- 1 root root 3.7M Jul  4  2019 System.map-4.15.0-1044-aws
                    -rw------- 1 root root 3.7M Nov  7  2019 System.map-4.15.0-1054-aws
                    -rw------- 1 root root 4.3M May 14 16:08 System.map-5.4.0-1049-aws";
                Some(parse_long_list_in_year(ls, 2021))
            }
            _ => None,
        }
    }
}

fn ensure_metadata(cache: &mut MetaCache, runner: &TestRunner, path: &str, now: u64) {
    if let Some(target) = cache.metadata_listing_target(path, now) {
        let rows = runner.fetch_path(&target);
        cache.update_dir_cache(&target, rows, now);
    }
}

fn get_dir_list(
    cache: &mut MetaCache,
    runner: &TestRunner,
    path: &str,
    now: u64,
) -> Vec<DirectoryEntry> {
    if cache.dir_listing_needed(path, now) {
        let target = listing_path(&path_key(path));
        let rows = runner.fetch_path(&target);
        cache.update_dir_cache(&target, rows, now);
    }
    cache.dir_entries(path)
}

#[test]
fn test_runner() {
    let runner = TestRunner { count: Cell::new(0) };
    let mut cache = MetaCache::new();

    assert_eq!(cache.contains_key(""), false);
    assert_eq!(runner.count.get(), 0);

    ensure_metadata(&mut cache, &runner, "/", 0);
    assert_eq!(cache.contains_key(""), true);
    assert_eq!(runner.count.get(), 1);

    // answered from the cache
    ensure_metadata(&mut cache, &runner, "/", 10);
    assert_eq!(runner.count.get(), 1);

    // the parent's fresh listing settles the child
    ensure_metadata(&mut cache, &runner, "/boot", 20);
    assert_eq!(runner.count.get(), 1);

    assert_eq!(get_dir_list(&mut cache, &runner, "/", 30).len(), 4);

    assert_eq!(get_dir_list(&mut cache, &runner, "/boot", 40).len(), 3);
    assert_eq!(runner.count.get(), 2);
}

#[test]
fn listed_children_have_records() {
    let runner = TestRunner { count: Cell::new(0) };
    let mut cache = MetaCache::new();
    cache.update_dir_cache("/", runner.fetch_path("/"), 5);
    let root = cache.get("").unwrap();
    let children = root.children.as_ref().unwrap().clone();
    assert_eq!(children, vec!["bin", "boot", "dev", "etc"]);
    for name in &children {
        let key = format!("/{}", name);
        let child = cache.get(&key).unwrap();
        assert!(child.directory);
        assert!(!child.updated);
        assert!(child.children.is_none());
        assert_eq!(child.last_updated, 5);
    }
    assert_eq!(root.perms, 0o7777);
    assert!(root.file_meta.is_none());
}

#[test]
fn failed_listing_changes_nothing() {
    let mut cache = MetaCache::new();
    cache.update_dir_cache("/nowhere/", None, 5);
    assert!(!cache.contains_key("/nowhere"));
    assert_eq!(cache.attributes("/nowhere"), Err(FsError::NotSupported));
}

#[test]
fn relisting_advances_the_timestamp() {
    let runner = TestRunner { count: Cell::new(0) };
    let mut cache = MetaCache::new();
    cache.update_dir_cache("/", runner.fetch_path("/"), 1000);
    cache.update_dir_cache("/boot/", runner.fetch_path("/boot/"), 1500);
    let boot = cache.get("/boot").unwrap();
    assert!(boot.updated);
    assert_eq!(boot.last_updated, 1500);
    // the record keeps what the parent's listing said of it
    assert_eq!(boot.perms, 0o755);
    assert_eq!(boot.size, 4096);
    assert!(boot.file_meta.is_some());
    cache.update_dir_cache("/boot/", runner.fetch_path("/boot/"), 2500);
    assert_eq!(cache.get("/boot").unwrap().last_updated, 2500);
    assert_eq!(cache.dir_entries("/boot").len(), 3);
}

#[test]
fn listing_goes_stale_after_the_ttl() {
    let runner = TestRunner { count: Cell::new(0) };
    let mut cache = MetaCache::new();
    ensure_metadata(&mut cache, &runner, "/missing", 0);
    assert_eq!(runner.count.get(), 1);
    // a fresh parent listing says the path does not exist
    assert_eq!(cache.metadata_listing_target("/missing", TTL_MILLIS), None);
    assert!(!cache.dir_listing_needed("/", TTL_MILLIS));
    // once it is older than the TTL, the parent is listed again
    assert_eq!(
        cache.metadata_listing_target("/missing", TTL_MILLIS + 1),
        Some("/".to_string())
    );
    assert!(cache.dir_listing_needed("/", TTL_MILLIS + 1));
    assert_eq!(cache.open_dir("/missing"), Err(FsError::NotFound));
}

#[test]
fn nested_paths_list_their_parent() {
    let cache = MetaCache::new();
    assert_eq!(
        cache.metadata_listing_target("/a/b/c", 0),
        Some("/a/b/".to_string())
    );
    assert_eq!(cache.metadata_listing_target("/", 0), Some("/".to_string()));
    assert!(cache.dir_entries("/a").is_empty());
}

#[test]
fn attributes_and_entries() {
    let runner = TestRunner { count: Cell::new(0) };
    let mut cache = MetaCache::new();
    cache.update_dir_cache("/", runner.fetch_path("/"), 0);
    cache.update_dir_cache("/boot/", runner.fetch_path("/boot/"), 0);

    let attr = cache.attributes("/bin").unwrap();
    assert_eq!(attr.kind, FileKind::Directory);
    assert_eq!(attr.perm, 0o755);
    assert_eq!(attr.size, 4096);
    assert_eq!(attr.nlink, 1);
    assert_eq!(attr.uid, 1);
    assert_eq!(attr.gid, 1);
    assert_eq!(attr.modified_secs, 1614814020);

    let file = cache.attributes("/boot/System.map-4.15.0-1044-aws").unwrap();
    assert_eq!(file.kind, FileKind::RegularFile);
    assert_eq!(file.perm, 0o600);
    assert_eq!(file.size, 0);

    let root = cache.attributes("/").unwrap();
    assert_eq!(root.kind, FileKind::Directory);
    assert_eq!(root.modified_secs, 0);
    assert_eq!(cache.open_dir("/"), Ok((1, 1)));

    let entries = cache.dir_entries("/boot");
    assert_eq!(entries.len(), 3);
    assert_eq!(entries[0].name, "System.map-4.15.0-1044-aws");
    assert_eq!(entries[0].kind, FileKind::RegularFile);
    let root_entries = cache.dir_entries("/");
    assert!(root_entries.iter().all(|e| e.kind == FileKind::Directory));
}

#[test]
fn error_numbers_match_the_platform() {
    assert_eq!(FsError::NotFound.errno(), libc::ENOENT);
    assert_eq!(FsError::NotSupported.errno(), libc::ENOSYS);
}
