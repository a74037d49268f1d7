//! The metadata cache: one record per known path, filled from directory listings.

use vstd::prelude::*;

use crate::fs::{kind_of, DirectoryEntry, FileAttributes, FileKind, FsError};
use crate::ls::{rows_view, FileMeta, RowView, UNKNOWN_PERMS};
use crate::paths::{child_key, child_of, key_of, listing_of, listing_path, parent_key, parent_of, path_key};

verus! {

/// How long, in milliseconds, a directory listing may be used without a new fetch.
pub const TTL_MILLIS: u64 = 60_000;

/// What the cache knows of one path.
#[derive(Debug)]
pub struct CachedMeta {
    /// The listing row that described this path, if any.
    pub file_meta: Option<FileMeta>,
    pub directory: bool,
    pub perms: u16,
    pub size: u64,
    /// The names in this directory, present once it has been listed.
    pub children: Option<Vec<String>>,
    /// True when `children` comes from a listing made at `last_updated`.
    pub updated: bool,
    /// Monotonic time of the last change, in milliseconds.
    pub last_updated: u64,
}

pub struct MetaView {
    pub file_meta: Option<RowView>,
    pub directory: bool,
    pub perms: int,
    pub size: int,
    pub children: Option<Seq<Seq<char>>>,
    pub updated: bool,
    pub last_updated: int,
}

pub open spec fn names_view(v: Seq<String>) -> Seq<Seq<char>> {
    v.map_values(|s: String| s@)
}

impl View for CachedMeta {
    type V = MetaView;

    open spec fn view(&self) -> MetaView {
        MetaView {
            file_meta: match self.file_meta {
                Some(m) => Some(m@),
                None => None,
            },
            directory: self.directory,
            perms: self.perms as int,
            size: self.size as int,
            children: match self.children {
                Some(c) => Some(names_view(c@)),
                None => None,
            },
            updated: self.updated,
            last_updated: self.last_updated as int,
        }
    }
}

pub open spec fn age(m: MetaView, now: int) -> int {
    if now >= m.last_updated {
        now - m.last_updated
    } else {
        0
    }
}

/// A listing that is known and at most the TTL old.
pub open spec fn is_fresh(m: MetaView, now: int) -> bool {
    m.updated && age(m, now) <= TTL_MILLIS as int
}

/// Every listed name has a record of its own.
pub open spec fn children_closed(m: Map<Seq<char>, MetaView>) -> bool {
    forall|k: Seq<char>, i: int|
        #![trigger m[k].children->0[i]]
        m.contains_key(k) && m[k].children is Some && 0 <= i < m[k].children->0.len()
            ==> m.contains_key(child_of(k, m[k].children->0[i]))
}

/// The record of a directory right after it was listed with the names `names`.
pub open spec fn listed_dir(old: Option<MetaView>, names: Seq<Seq<char>>, now: int) -> MetaView {
    MetaView {
        file_meta: match old {
            Some(o) => o.file_meta,
            None => None,
        },
        directory: true,
        perms: match old {
            Some(o) => o.perms,
            None => UNKNOWN_PERMS as int,
        },
        size: match old {
            Some(o) => o.size,
            None => 0,
        },
        children: Some(names),
        updated: true,
        last_updated: now,
    }
}

/// The record of a path that a listing row describes.
pub open spec fn row_record(r: RowView, now: int) -> MetaView {
    MetaView {
        file_meta: Some(r),
        directory: r.directory,
        perms: r.perms,
        size: r.file_size,
        children: None,
        updated: false,
        last_updated: now,
    }
}

pub open spec fn row_names(rows: Seq<RowView>) -> Seq<Seq<char>> {
    rows.map_values(|r: RowView| r.name)
}

/// `m` with a record for each row under the directory keyed `key`; a later row wins
/// over an earlier one of the same name.
pub open spec fn insert_rows(
    m: Map<Seq<char>, MetaView>,
    key: Seq<char>,
    rows: Seq<RowView>,
    now: int,
) -> Map<Seq<char>, MetaView>
    decreases rows.len(),
{
    if rows.len() == 0 {
        m
    } else {
        insert_rows(m, key, rows.drop_last(), now).insert(
            child_of(key, rows.last().name),
            row_record(rows.last(), now),
        )
    }
}

/// The cache after a listing of the directory keyed `key` returned `rows` at `now`.
pub open spec fn after_listing(
    m: Map<Seq<char>, MetaView>,
    key: Seq<char>,
    rows: Seq<RowView>,
    now: int,
) -> Map<Seq<char>, MetaView> {
    let old = if m.contains_key(key) {
        Some(m[key])
    } else {
        None
    };
    insert_rows(m.insert(key, listed_dir(old, row_names(rows), now)), key, rows, now)
}

/// Whether answering for `path` needs a listing of its parent first: the path is
/// unknown and its parent holds no fresh listing that would settle it.
pub open spec fn needs_parent_listing(m: Map<Seq<char>, MetaView>, path: Seq<char>, now: int) -> bool {
    !m.contains_key(key_of(path)) && !(m.contains_key(parent_of(path)) && is_fresh(
        m[parent_of(path)],
        now,
    ))
}

/// Whether enumerating the directory `path` needs a new listing of it.
pub open spec fn needs_own_listing(m: Map<Seq<char>, MetaView>, path: Seq<char>, now: int) -> bool {
    !(m.contains_key(key_of(path)) && is_fresh(m[key_of(path)], now))
}

pub proof fn lemma_child_key_longer(k: Seq<char>, name: Seq<char>)
    ensures
        child_of(k, name).len() > k.len(),
        child_of(k, name) != k,
{
}

/// Inserting rows keeps every key, adds each row's key, and leaves any other
/// key's record alone; every record it writes has no children.
pub proof fn lemma_insert_rows(m: Map<Seq<char>, MetaView>, key: Seq<char>, rows: Seq<RowView>, now: int)
    ensures
        forall|k: Seq<char>| m.contains_key(k) ==> #[trigger] insert_rows(m, key, rows, now).contains_key(k),
        forall|i: int|
            0 <= i < rows.len() ==> #[trigger] insert_rows(m, key, rows, now).contains_key(
                child_of(key, rows[i].name),
            ),
        forall|k: Seq<char>|
            #[trigger] insert_rows(m, key, rows, now).contains_key(k) ==> m.contains_key(k) || exists|
                i: int,
            |
                0 <= i < rows.len() && k == child_of(key, #[trigger] rows[i].name),
        forall|k: Seq<char>|
            #[trigger] insert_rows(m, key, rows, now).contains_key(k) ==> insert_rows(
                m,
                key,
                rows,
                now,
            )[k].children is None || (m.contains_key(k) && insert_rows(m, key, rows, now)[k]
                == m[k]),
        forall|k: Seq<char>|
            m.contains_key(k) && k.len() <= key.len() ==> #[trigger] insert_rows(m, key, rows, now)[k]
                == m[k],
    decreases rows.len(),
{
    if rows.len() > 0 {
        let prev = rows.drop_last();
        lemma_insert_rows(m, key, prev, now);
        let r = insert_rows(m, key, rows, now);
        let ck = child_of(key, rows.last().name);
        assert forall|i: int| 0 <= i < rows.len() implies #[trigger] r.contains_key(
            child_of(key, rows[i].name),
        ) by {
            if i < rows.len() - 1 {
                assert(prev[i] == rows[i]);
            }
        }
        assert forall|k: Seq<char>| #[trigger] r.contains_key(k) implies m.contains_key(k) || exists|
            i: int,
        |
            0 <= i < rows.len() && k == child_of(key, #[trigger] rows[i].name) by {
            if k == ck {
                assert(rows[rows.len() - 1].name == rows.last().name);
            } else {
                if !m.contains_key(k) {
                    let i = choose|i: int| 0 <= i < prev.len() && k == child_of(key, #[trigger] prev[i].name);
                    assert(rows[i] == prev[i]);
                }
            }
        }
        assert forall|k: Seq<char>| m.contains_key(k) && k.len() <= key.len() implies #[trigger] r[k]
            == m[k] by {
            lemma_child_key_longer(key, rows.last().name);
        }
    }
}

/// After a directory is listed, its record lists the rows' names, each of those
/// names has a record of its own, and every other listed directory still has
/// records for all of its names.
pub proof fn lemma_listing_closes_children(
    m: Map<Seq<char>, MetaView>,
    key: Seq<char>,
    rows: Seq<RowView>,
    now: int,
)
    requires
        children_closed(m),
    ensures
        after_listing(m, key, rows, now).contains_key(key),
        after_listing(m, key, rows, now)[key].children == Some(row_names(rows)),
        forall|i: int|
            0 <= i < rows.len() ==> #[trigger] after_listing(m, key, rows, now).contains_key(
                child_of(key, row_names(rows)[i]),
            ),
        children_closed(after_listing(m, key, rows, now)),
{
    let old = if m.contains_key(key) {
        Some(m[key])
    } else {
        None
    };
    let m1 = m.insert(key, listed_dir(old, row_names(rows), now));
    let r = after_listing(m, key, rows, now);
    lemma_insert_rows(m1, key, rows, now);
    assert forall|i: int| 0 <= i < rows.len() implies #[trigger] r.contains_key(
        child_of(key, row_names(rows)[i]),
    ) by {
        assert(row_names(rows)[i] == rows[i].name);
    }
    assert forall|k: Seq<char>, i: int|
        #![trigger r[k].children->0[i]]
        r.contains_key(k) && r[k].children is Some && 0 <= i < r[k].children->0.len()
            implies r.contains_key(child_of(k, r[k].children->0[i])) by {
        assert(m1.contains_key(k) && r[k] == m1[k]);
        if k == key {
            assert(r.contains_key(child_of(key, row_names(rows)[i])));
        } else {
            assert(m.contains_key(k) && m1[k] == m[k]);
            assert(m.contains_key(child_of(k, m[k].children->0[i])));
        }
    }
}

/// A listing made at a time later than the directory's last update moves that
/// update strictly forward and marks the listing as current.
pub proof fn lemma_listing_refreshes(
    m: Map<Seq<char>, MetaView>,
    key: Seq<char>,
    rows: Seq<RowView>,
    now: int,
)
    requires
        m.contains_key(key) ==> m[key].last_updated < now,
    ensures
        after_listing(m, key, rows, now).contains_key(key),
        after_listing(m, key, rows, now)[key].updated,
        after_listing(m, key, rows, now)[key].last_updated == now,
        m.contains_key(key) ==> after_listing(m, key, rows, now)[key].last_updated
            > m[key].last_updated,
{
    lemma_listing_marks_current(m, key, rows, now);
}

/// Once the parent of `path` has been listed at `t1`, looking up `path` at any
/// `t2` less than the TTL later needs no listing: of two lookups less than the
/// TTL apart, only the first can fetch the parent, unless that fetch failed.
pub proof fn lemma_fresh_parent_avoids_refetch(
    m: Map<Seq<char>, MetaView>,
    path: Seq<char>,
    rows: Seq<RowView>,
    t1: int,
    t2: int,
)
    requires
        t1 <= t2 < t1 + TTL_MILLIS,
    ensures
        !needs_parent_listing(after_listing(m, parent_of(path), rows, t1), path, t2),
{
    lemma_listing_marks_current(m, parent_of(path), rows, t1);
}

/// A listed directory's record is current as of the listing.
proof fn lemma_listing_marks_current(
    m: Map<Seq<char>, MetaView>,
    key: Seq<char>,
    rows: Seq<RowView>,
    now: int,
)
    ensures
        after_listing(m, key, rows, now).contains_key(key),
        after_listing(m, key, rows, now)[key].updated,
        after_listing(m, key, rows, now)[key].last_updated == now,
{
    let old = if m.contains_key(key) {
        Some(m[key])
    } else {
        None
    };
    let m1 = m.insert(key, listed_dir(old, row_names(rows), now));
    lemma_insert_rows(m1, key, rows, now);
}

/// The entries of the directory keyed `key`: each listed name with the kind of its
/// record, in listing order; none when the directory has not been listed.
pub open spec fn dir_entries_of(m: Map<Seq<char>, MetaView>, key: Seq<char>) -> Seq<(Seq<char>, FileKind)> {
    if m.contains_key(key) && m[key].children is Some {
        m[key].children->0.map_values(
            |n: Seq<char>| (n, kind_of(m[child_of(key, n)].directory)),
        )
    } else {
        seq![]
    }
}

pub open spec fn entries_view(v: Seq<DirectoryEntry>) -> Seq<(Seq<char>, FileKind)> {
    v.map_values(|e: DirectoryEntry| (e.name@, e.kind))
}

/// The attributes reported for a record: kind, permissions, size and modification
/// time from the record, one link, owner and group 1.
pub open spec fn attributes_of(m: MetaView) -> FileAttributes {
    FileAttributes {
        size: m.size as u64,
        blocks: 4096,
        modified_secs: match m.file_meta {
            Some(f) => f.modified_since as i64,
            None => 0,
        },
        kind: kind_of(m.directory),
        perm: m.perms as u16,
        nlink: 1,
        uid: 1,
        gid: 1,
        rdev: 0,
        flags: 0,
    }
}

/// The path-keyed metadata cache.
pub struct MetaCache {
    entries: Vec<(String, CachedMeta)>,
    records: Ghost<Map<Seq<char>, MetaView>>,
}

impl View for MetaCache {
    type V = Map<Seq<char>, MetaView>;

    closed spec fn view(&self) -> Map<Seq<char>, MetaView> {
        self.records@
    }
}

impl MetaCache {
    /// Keys are unique and the entries hold exactly the records of the view.
    closed spec fn entries_match(&self) -> bool {
        &&& forall|i: int, j: int|
            0 <= i < j < self.entries.len() ==> self.entries@[i].0@ != self.entries@[j].0@
        &&& forall|i: int|
            0 <= i < self.entries.len() ==> self.records@.contains_key(#[trigger] self.entries@[i].0@)
                && self.records@[self.entries@[i].0@] == self.entries@[i].1@
        &&& forall|k: Seq<char>|
            #[trigger] self.records@.contains_key(k) ==> exists|i: int|
                0 <= i < self.entries.len() && #[trigger] self.entries@[i].0@ == k
    }

    /// The cache's invariant: its records match its entries, and every listed
    /// name has a record.
    pub closed spec fn wf(&self) -> bool {
        self.entries_match() && children_closed(self@)
    }

    pub proof fn lemma_wf_children_closed(&self)
        requires
            self.wf(),
        ensures
            children_closed(self@),
    {
    }

    /// An empty cache.
    pub fn new() -> (c: Self)
        ensures
            c.wf(),
            c@ == Map::<Seq<char>, MetaView>::empty(),
    {
        MetaCache { entries: Vec::new(), records: Ghost(Map::empty()) }
    }

    fn find(&self, key: &String) -> (r: Option<usize>)
        requires
            self.entries_match(),
        ensures
            match r {
                Some(i) => i < self.entries.len() && self.entries@[i as int].0@ == key@
                    && self@.contains_key(key@),
                None => !self@.contains_key(key@),
            },
    {
        let mut i: usize = 0;
        while i < self.entries.len()
            invariant
                self.entries_match(),
                i <= self.entries.len(),
                forall|j: int| 0 <= j < i ==> self.entries@[j].0@ != key@,
            decreases self.entries.len() - i,
        {
            if self.entries[i].0 == *key {
                return Some(i);
            }
            i += 1;
        }
        None
    }

    /// Sets the record of `key`, adding it when the key is new.
    fn put(&mut self, key: String, meta: CachedMeta) -> (prev: Option<CachedMeta>)
        requires
            old(self).entries_match(),
        ensures
            final(self).entries_match(),
            final(self)@ == old(self)@.insert(key@, meta@),
            match prev {
                Some(p) => old(self)@.contains_key(key@) && p@ == old(self)@[key@],
                None => !old(self)@.contains_key(key@),
            },
    {
        let ghost k = key@;
        let ghost v = meta@;
        let ghost idx: int;
        let prev = match self.find(&key) {
            Some(i) => {
                let (_, p) = self.entries.remove(i);
                self.entries.insert(i, (key, meta));
                proof {
                    idx = i as int;
                }
                Some(p)
            },
            None => {
                self.entries.push((key, meta));
                proof {
                    idx = self.entries.len() - 1;
                }
                None
            },
        };
        assert(self.entries@[idx].0@ == k);
        self.records = Ghost(self.records@.insert(k, v));
        assert forall|j: int| 0 <= j < self.entries.len() implies self.records@.contains_key(
            #[trigger] self.entries@[j].0@,
        ) && self.records@[self.entries@[j].0@] == self.entries@[j].1@ by {
        }
        assert forall|q: Seq<char>| #[trigger] self.records@.contains_key(q) implies exists|j: int|
            0 <= j < self.entries.len() && #[trigger] self.entries@[j].0@ == q by {
            if q != k {
                let j = choose|j: int|
                    0 <= j < old(self).entries.len() && #[trigger] old(self).entries@[j].0@ == q;
                assert(self.entries@[j].0@ == q);
            } else {
                assert(self.entries@[idx].0@ == q);
            }
        }
        prev
    }

    fn lookup(&self, key: &String) -> (r: Option<&CachedMeta>)
        requires
            self.entries_match(),
        ensures
            match r {
                Some(m) => self@.contains_key(key@) && m@ == self@[key@],
                None => !self@.contains_key(key@),
            },
    {
        match self.find(key) {
            Some(i) => Some(&self.entries[i].1),
            None => None,
        }
    }

    /// Whether the cache holds a record under `key`.
    pub fn contains_key(&self, key: &str) -> (r: bool)
        requires
            self.wf(),
        ensures
            r == self@.contains_key(key@),
    {
        let k = key.to_owned();
        self.lookup(&k).is_some()
    }

    /// The record held under `key`.
    pub fn get(&self, key: &str) -> (r: Option<&CachedMeta>)
        requires
            self.wf(),
        ensures
            match r {
                Some(m) => self@.contains_key(key@) && m@ == self@[key@],
                None => !self@.contains_key(key@),
            },
    {
        let k = key.to_owned();
        self.lookup(&k)
    }

    /// The decision of the metadata lookup for `path` at time `now`: the listing path
    /// of its parent when that listing must be fetched first, or `None` when the
    /// cache can answer already (the path is known, or the parent's fresh listing
    /// shows it does not exist).
    pub fn metadata_listing_target(&self, path: &str, now: u64) -> (r: Option<String>)
        requires
            self.wf(),
        ensures
            r is Some <==> needs_parent_listing(self@, path@, now as int),
            r is Some ==> r->0@ == listing_of(parent_of(path@)),
    {
        let key = path_key(path);
        if self.lookup(&key).is_some() {
            return None;
        }
        let parent = parent_key(path);
        let fresh = match self.lookup(&parent) {
            Some(m) => m.updated && (now < m.last_updated || now - m.last_updated <= TTL_MILLIS),
            None => false,
        };
        if fresh {
            None
        } else {
            Some(listing_path(&parent))
        }
    }

    /// Whether enumerating the directory `path` at time `now` needs a new listing
    /// of it: it has no record, or its listing is missing or older than the TTL.
    pub fn dir_listing_needed(&self, path: &str, now: u64) -> (r: bool)
        requires
            self.wf(),
        ensures
            r == needs_own_listing(self@, path@, now as int),
    {
        let key = path_key(path);
        match self.lookup(&key) {
            Some(m) => !(m.updated && (now < m.last_updated || now - m.last_updated
                <= TTL_MILLIS)),
            None => true,
        }
    }

    /// The entries of the directory `path` as its last listing gave them.
    pub fn dir_entries(&self, path: &str) -> (r: Vec<DirectoryEntry>)
        requires
            self.wf(),
        ensures
            entries_view(r@) == dir_entries_of(self@, key_of(path@)),
    {
        let key = path_key(path);
        let mut out: Vec<DirectoryEntry> = Vec::new();
        let rec = match self.lookup(&key) {
            Some(m) => m,
            None => {
                assert(entries_view(out@) =~= dir_entries_of(self@, key@));
                return out;
            },
        };
        let children = match &rec.children {
            Some(c) => c,
            None => {
                assert(entries_view(out@) =~= dir_entries_of(self@, key@));
                return out;
            },
        };
        let ghost names = names_view(children@);
        let mut i: usize = 0;
        while i < children.len()
            invariant
                self.wf(),
                self@.contains_key(key@),
                self@[key@].children == Some(names),
                names == names_view(children@),
                i <= children.len(),
                entries_view(out@) == dir_entries_of(self@, key@).take(i as int),
            decreases children.len() - i,
        {
            let name = &children[i];
            assert(name@ == names[i as int]);
            assert(self@[key@].children->0[i as int] == names[i as int]);
            assert(self@.contains_key(child_of(key@, names[i as int])));
            let ck = child_key(&key, name);
            let kind = match self.lookup(&ck) {
                Some(c) => if c.directory {
                    FileKind::Directory
                } else {
                    FileKind::RegularFile
                },
                None => FileKind::RegularFile,
            };
            let ghost before = out@;
            out.push(DirectoryEntry { name: name.clone(), kind });
            assert(entries_view(out@) =~= entries_view(before).push((name@, kind)));
            i += 1;
            assert(entries_view(out@) =~= dir_entries_of(self@, key@).take(i as int));
        }
        assert(dir_entries_of(self@, key@).take(i as int) =~= dir_entries_of(self@, key@));
        out
    }

    /// The attributes of `path`, or `NotSupported` when the cache has no record of it.
    pub fn attributes(&self, path: &str) -> (r: Result<FileAttributes, FsError>)
        requires
            self.wf(),
        ensures
            self@.contains_key(key_of(path@)) ==> r == Ok::<FileAttributes, FsError>(
                attributes_of(self@[key_of(path@)]),
            ),
            !self@.contains_key(key_of(path@)) ==> r == Err::<FileAttributes, FsError>(
                FsError::NotSupported,
            ),
    {
        let key = path_key(path);
        match self.lookup(&key) {
            Some(m) => {
                let modified_secs = match &m.file_meta {
                    Some(f) => f.modified_since,
                    None => 0,
                };
                Ok(
                    FileAttributes {
                        size: m.size,
                        blocks: 4096,
                        modified_secs,
                        kind: if m.directory {
                            FileKind::Directory
                        } else {
                            FileKind::RegularFile
                        },
                        perm: m.perms,
                        nlink: 1,
                        uid: 1,
                        gid: 1,
                        rdev: 0,
                        flags: 0,
                    },
                )
            },
            None => Err(FsError::NotSupported),
        }
    }

    /// Opening the directory `path`: the handle `(1, 1)` when it is known, else
    /// `NotFound`.
    pub fn open_dir(&self, path: &str) -> (r: Result<(u64, u32), FsError>)
        requires
            self.wf(),
        ensures
            self@.contains_key(key_of(path@)) ==> r == Ok::<(u64, u32), FsError>((1, 1)),
            !self@.contains_key(key_of(path@)) ==> r == Err::<(u64, u32), FsError>(
                FsError::NotFound,
            ),
    {
        let key = path_key(path);
        if self.lookup(&key).is_some() {
            Ok((1, 1))
        } else {
            Err(FsError::NotFound)
        }
    }

    /// Installs the result of listing the directory `path` at time `now`: the
    /// directory's record lists the rows' names and is marked current, keeping what
    /// it knew of itself, and each row becomes the record of its own path. A failed
    /// listing (`None`) changes nothing.
    pub fn update_dir_cache(&mut self, path: &str, listing: Option<Vec<FileMeta>>, now: u64)
        requires
            old(self).wf(),
        ensures
            final(self).wf(),
            match listing {
                Some(rows) => final(self)@ == after_listing(
                    old(self)@,
                    key_of(path@),
                    rows_view(rows@),
                    now as int,
                ),
                None => final(self)@ == old(self)@,
            },
    {
        let rows = match listing {
            Some(r) => r,
            None => {
                return ;
            },
        };
        let key = path_key(path);
        let ghost rv = rows_view(rows@);
        let ghost m0 = self@;
        let mut names: Vec<String> = Vec::new();
        let mut j: usize = 0;
        while j < rows.len()
            invariant
                j <= rows.len(),
                rv == rows_view(rows@),
                names_view(names@) == row_names(rv).take(j as int),
            decreases rows.len() - j,
        {
            let nm = rows[j].name.clone();
            assert(nm@ == rv[j as int].name);
            let ghost before = names@;
            names.push(nm);
            assert(names@ == before.push(nm));
            assert(names_view(names@) =~= names_view(before).push(nm@));
            j += 1;
            assert(names_view(names@) =~= row_names(rv).take(j as int));
        }
        assert(row_names(rv).take(rows.len() as int) =~= row_names(rv));
        let ghost names_v = names_view(names@);
        let placeholder = CachedMeta {
            file_meta: None,
            directory: true,
            perms: UNKNOWN_PERMS,
            size: 0,
            children: None,
            updated: false,
            last_updated: now,
        };
        let prev = self.put(key.clone(), placeholder);
        let parent = match prev {
            Some(p) => CachedMeta {
                file_meta: p.file_meta,
                directory: true,
                perms: p.perms,
                size: p.size,
                children: Some(names),
                updated: true,
                last_updated: now,
            },
            None => CachedMeta {
                file_meta: None,
                directory: true,
                perms: UNKNOWN_PERMS,
                size: 0,
                children: Some(names),
                updated: true,
                last_updated: now,
            },
        };
        let _ = self.put(key.clone(), parent);
        let ghost old_rec = if m0.contains_key(key@) {
            Some(m0[key@])
        } else {
            None
        };
        let ghost m1 = m0.insert(key@, listed_dir(old_rec, row_names(rv), now as int));
        assert(self@ =~= m1);
        assert(rv.take(0) =~= Seq::<RowView>::empty());
        for m in it: rows
            invariant
                self.entries_match(),
                rv == rows_view(it.seq()),
                self@ == insert_rows(m1, key@, rv.take(it.index() as int), now as int),
        {
            let ghost i = it.index() as int;
            let ck = child_key(&key, &m.name);
            let rec = CachedMeta {
                directory: m.directory,
                perms: m.perms,
                size: m.file_size,
                children: None,
                updated: false,
                last_updated: now,
                file_meta: Some(m),
            };
            let _ = self.put(ck, rec);
            assert(rv.take(i + 1).drop_last() =~= rv.take(i));
        }
        assert(rv.take(rv.len() as int) =~= rv);
        proof {
            lemma_listing_closes_children(m0, key@, rv, now as int);
        }
    }
}

} // verus!
