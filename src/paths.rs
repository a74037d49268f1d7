//! Cache keys for paths. Keys carry no trailing slash; the root's key is empty.

use vstd::prelude::*;

use crate::text::{collect_chars, copy_range, string_from_chars};

verus! {

/// The key of `p`: `p` without one trailing slash, so `/` becomes the empty key.
pub open spec fn key_of(p: Seq<char>) -> Seq<char> {
    if p.len() > 0 && p.last() == '/' {
        p.drop_last()
    } else {
        p
    }
}

/// Index of the last `/` before `i`, or -1.
pub open spec fn last_slash_before(k: Seq<char>, i: int) -> int
    decreases i,
{
    if i <= 0 || i > k.len() {
        -1
    } else if k[i - 1] == '/' {
        i - 1
    } else {
        last_slash_before(k, i - 1)
    }
}

/// The key of the directory that holds `p`; the root is its own parent.
pub open spec fn parent_of(p: Seq<char>) -> Seq<char> {
    let k = key_of(p);
    let j = last_slash_before(k, k.len() as int);
    if j < 0 {
        seq![]
    } else {
        k.take(j)
    }
}

/// The key of the entry `name` inside the directory keyed `k`.
pub open spec fn child_of(k: Seq<char>, name: Seq<char>) -> Seq<char> {
    k + seq!['/'] + name
}

/// The path handed to a listing of the directory keyed `k`: the key with a trailing
/// slash, so that the listing shows the directory's contents.
pub open spec fn listing_of(k: Seq<char>) -> Seq<char> {
    k.push('/')
}

pub proof fn lemma_key_of_listing(k: Seq<char>)
    ensures
        key_of(listing_of(k)) == k,
{
    assert(listing_of(k).drop_last() =~= k);
}

pub proof fn lemma_last_slash(k: Seq<char>, i: int)
    requires
        0 <= i <= k.len(),
    ensures
        -1 <= last_slash_before(k, i) < i,
    decreases i,
{
    if i > 0 && k[i - 1] != '/' {
        lemma_last_slash(k, i - 1);
    }
}

/// The key of `path`.
pub fn path_key(path: &str) -> (r: String)
    ensures
        r@ == key_of(path@),
{
    let c = collect_chars(path);
    let n = c.len();
    if n > 0 && c[n - 1] == '/' {
        let k = copy_range(&c, 0, n - 1);
        assert(k@ =~= c@.drop_last());
        string_from_chars(&k)
    } else {
        string_from_chars(&c)
    }
}

/// The key of the directory that holds `path`.
pub fn parent_key(path: &str) -> (r: String)
    ensures
        r@ == parent_of(path@),
{
    let c = collect_chars(path);
    let n = c.len();
    let k = if n > 0 && c[n - 1] == '/' {
        copy_range(&c, 0, n - 1)
    } else {
        copy_range(&c, 0, n)
    };
    assert(k@ =~= key_of(path@));
    let mut i: usize = k.len();
    while i > 0 && k[i - 1] != '/'
        invariant
            i <= k.len(),
            last_slash_before(k@, i as int) == last_slash_before(k@, k.len() as int),
        decreases i,
    {
        i -= 1;
    }
    if i == 0 {
        String::new()
    } else {
        let p = copy_range(&k, 0, i - 1);
        assert(p@ =~= k@.take(i - 1));
        string_from_chars(&p)
    }
}

/// The key of the entry `name` inside the directory keyed `key`.
pub fn child_key(key: &String, name: &String) -> (r: String)
    ensures
        r@ == child_of(key@, name@),
{
    let mut c = collect_chars(key.as_str());
    c.push('/');
    let tail = collect_chars(name.as_str());
    let mut i: usize = 0;
    let ghost base = c@;
    while i < tail.len()
        invariant
            i <= tail.len(),
            c@ == base + tail@.take(i as int),
        decreases tail.len() - i,
    {
        c.push(tail[i]);
        i += 1;
        assert(c@ =~= base + tail@.take(i as int));
    }
    assert(c@ =~= child_of(key@, name@));
    string_from_chars(&c)
}

/// The path to list for the directory keyed `key`.
pub fn listing_path(key: &String) -> (r: String)
    ensures
        r@ == listing_of(key@),
{
    let mut c = collect_chars(key.as_str());
    c.push('/');
    string_from_chars(&c)
}

} // verus!
