use sshfuse::fs::reject_write;
use sshfuse::{statfs_reply, FileCache, FsError};

#[test]
fn open_then_read_whole_file() {
    let mut cache = FileCache::new();
    let body = b"hello, remote world".to_vec();
    let r = cache.open_with_output("/etc/motd", body.clone(), &Vec::new(), 7);
    assert_eq!(r, Ok((1, 1)));
    assert!(cache.contains_key("/etc/motd"));
    let got = cache.read("/etc/motd", 0, body.len() as u32 + 10).unwrap();
    assert_eq!(got, body);
    let end = cache.read("/etc/motd", body.len() as u64, 10).unwrap();
    assert!(end.is_empty());
    let mid = cache.read("/etc/motd", 7, 6).unwrap();
    assert_eq!(mid, b"remote".to_vec());
    let past = cache.read("/etc/motd", 1000, 10).unwrap();
    assert!(past.is_empty());
}

#[test]
fn error_output_fails_the_open() {
    let mut cache = FileCache::new();
    let r = cache.open_with_output("/secret", b"partial".to_vec(), &b"cat: denied".to_vec(), 1);
    assert_eq!(r, Err(FsError::NotSupported));
    assert!(!cache.contains_key("/secret"));
    assert_eq!(cache.read("/secret", 0, 4), Err(FsError::NotFound));
}

#[test]
fn reopening_replaces_the_body() {
    let mut cache = FileCache::new();
    let _ = cache.open_with_output("/f", b"one".to_vec(), &Vec::new(), 1);
    let _ = cache.open_with_output("/f", b"two!".to_vec(), &Vec::new(), 2);
    assert_eq!(cache.read("/f", 0, 100).unwrap(), b"two!".to_vec());
}

#[test]
fn statfs_and_writes() {
    let s = statfs_reply();
    assert_eq!(s.bsize, 4096);
    assert_eq!(s.namelen, 255);
    assert_eq!(s.blocks, 0);
    assert_eq!(s.frsize, 0);
    assert_eq!(reject_write(), FsError::NotSupported);
}
