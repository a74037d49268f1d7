//! The file cache: whole file bodies, keyed by path, filled on open and sliced on read.

use vstd::prelude::*;

use crate::fs::FsError;

verus! {

/// A file body as it was read, with the monotonic time (milliseconds) of the read.
#[derive(Debug)]
pub struct CachedFile {
    pub contents: Vec<u8>,
    pub last_updated: u64,
}

pub struct FileView {
    pub contents: Seq<u8>,
    pub last_updated: int,
}

impl View for CachedFile {
    type V = FileView;

    open spec fn view(&self) -> FileView {
        FileView { contents: self.contents@, last_updated: self.last_updated as int }
    }
}

/// The bytes `[offset .. min(offset + size, len)]` of `b`; empty from the end on.
pub open spec fn read_slice(b: Seq<u8>, offset: int, size: int) -> Seq<u8> {
    let start = if offset < b.len() {
        offset
    } else {
        b.len() as int
    };
    let end = if offset + size < b.len() {
        offset + size
    } else {
        b.len() as int
    };
    b.subrange(start, end)
}

/// The path-keyed file cache.
pub struct FileCache {
    entries: Vec<(String, CachedFile)>,
    files: Ghost<Map<Seq<char>, FileView>>,
}

impl View for FileCache {
    type V = Map<Seq<char>, FileView>;

    closed spec fn view(&self) -> Map<Seq<char>, FileView> {
        self.files@
    }
}

impl FileCache {
    /// Paths are unique and the entries hold exactly the files of the view.
    pub closed spec fn wf(&self) -> bool {
        &&& forall|i: int, j: int|
            0 <= i < j < self.entries.len() ==> self.entries@[i].0@ != self.entries@[j].0@
        &&& forall|i: int|
            0 <= i < self.entries.len() ==> self.files@.contains_key(#[trigger] self.entries@[i].0@)
                && self.files@[self.entries@[i].0@] == self.entries@[i].1@
        &&& forall|k: Seq<char>|
            #[trigger] self.files@.contains_key(k) ==> exists|i: int|
                0 <= i < self.entries.len() && #[trigger] self.entries@[i].0@ == k
    }

    /// An empty cache.
    pub fn new() -> (c: Self)
        ensures
            c.wf(),
            c@ == Map::<Seq<char>, FileView>::empty(),
    {
        FileCache { entries: Vec::new(), files: Ghost(Map::empty()) }
    }

    fn find(&self, path: &String) -> (r: Option<usize>)
        requires
            self.wf(),
        ensures
            match r {
                Some(i) => i < self.entries.len() && self.entries@[i as int].0@ == path@
                    && self@.contains_key(path@),
                None => !self@.contains_key(path@),
            },
    {
        let mut i: usize = 0;
        while i < self.entries.len()
            invariant
                self.wf(),
                i <= self.entries.len(),
                forall|j: int| 0 <= j < i ==> self.entries@[j].0@ != path@,
            decreases self.entries.len() - i,
        {
            if self.entries[i].0 == *path {
                return Some(i);
            }
            i += 1;
        }
        None
    }

    /// Whether the body of `path` is cached.
    pub fn contains_key(&self, path: &str) -> (r: bool)
        requires
            self.wf(),
        ensures
            r == self@.contains_key(path@),
    {
        let p = path.to_owned();
        self.find(&p).is_some()
    }

    /// Stores `file` as the body of `path`, replacing an earlier one.
    pub fn insert(&mut self, path: String, file: CachedFile)
        requires
            old(self).wf(),
        ensures
            final(self).wf(),
            final(self)@ == old(self)@.insert(path@, file@),
    {
        let ghost k = path@;
        let ghost v = file@;
        let ghost idx: int;
        match self.find(&path) {
            Some(i) => {
                let _ = self.entries.remove(i);
                self.entries.insert(i, (path, file));
                proof {
                    idx = i as int;
                }
            },
            None => {
                self.entries.push((path, file));
                proof {
                    idx = self.entries.len() - 1;
                }
            },
        }
        self.files = Ghost(self.files@.insert(k, v));
        assert(self.entries@[idx].0@ == k);
        assert forall|j: int| 0 <= j < self.entries.len() implies self.files@.contains_key(
            #[trigger] self.entries@[j].0@,
        ) && self.files@[self.entries@[j].0@] == self.entries@[j].1@ by {}
        assert forall|q: Seq<char>| #[trigger] self.files@.contains_key(q) implies exists|j: int|
            0 <= j < self.entries.len() && #[trigger] self.entries@[j].0@ == q by {
            if q != k {
                let j = choose|j: int|
                    0 <= j < old(self).entries.len() && #[trigger] old(self).entries@[j].0@ == q;
                assert(self.entries@[j].0@ == q);
            } else {
                assert(self.entries@[idx].0@ == q);
            }
        }
    }

    /// Finishes opening `path` with what reading it produced at time `now`: error
    /// output fails the open with `NotSupported` and caches nothing; otherwise the
    /// output becomes the cached body and the handle `(1, 1)` is returned.
    pub fn open_with_output(&mut self, path: &str, stdout: Vec<u8>, stderr: &Vec<u8>, now: u64) -> (r:
        Result<(u64, u32), FsError>)
        requires
            old(self).wf(),
        ensures
            final(self).wf(),
            stderr@.len() > 0 ==> r == Err::<(u64, u32), FsError>(FsError::NotSupported)
                && final(self)@ == old(self)@,
            stderr@.len() == 0 ==> r == Ok::<(u64, u32), FsError>((1, 1)) && final(self)@ == old(
                self,
            )@.insert(path@, FileView { contents: stdout@, last_updated: now as int }),
    {
        if stderr.len() > 0 {
            return Err(FsError::NotSupported);
        }
        self.insert(path.to_owned(), CachedFile { contents: stdout, last_updated: now });
        Ok((1, 1))
    }

    /// Reads `size` bytes at `offset` of the cached body of `path`; `NotFound` when
    /// the body is not cached.
    pub fn read(&self, path: &str, offset: u64, size: u32) -> (r: Result<Vec<u8>, FsError>)
        requires
            self.wf(),
        ensures
            self@.contains_key(path@) ==> r is Ok && r->Ok_0@ == read_slice(
                self@[path@].contents,
                offset as int,
                size as int,
            ),
            !self@.contains_key(path@) ==> r == Err::<Vec<u8>, FsError>(FsError::NotFound),
    {
        let p = path.to_owned();
        let i = match self.find(&p) {
            Some(i) => i,
            None => {
                return Err(FsError::NotFound);
            },
        };
        let contents = &self.entries[i].1.contents;
        let len = contents.len();
        let start: usize = if (offset as u128) < (len as u128) {
            offset as usize
        } else {
            len
        };
        let end: usize = if (offset as u128) + (size as u128) < (len as u128) {
            (offset + size as u64) as usize
        } else {
            len
        };
        let mut out: Vec<u8> = Vec::new();
        let mut k: usize = start;
        while k < end
            invariant
                start <= k <= end <= len,
                len == contents.len(),
                out@ == contents@.subrange(start as int, k as int),
            decreases end - k,
        {
            out.push(contents[k]);
            k += 1;
            assert(out@ =~= contents@.subrange(start as int, k as int));
        }
        Ok(out)
    }
}

} // verus!
