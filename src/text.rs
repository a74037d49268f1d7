//! Character-level helpers shared by the listing parser and the command
//! builder: whitespace, tokens, joining and decimal numbers.

use vstd::prelude::*;
use vstd::std_specs::iter::IteratorSpec;

verus! {

broadcast use vstd::string::group_string_axioms;

/// Unicode `White_Space`, the set that `str::split_whitespace` splits on.
pub open spec fn is_ws(c: char) -> bool {
    let u = c as u32;
    u == 0x20 || (0x09 <= u && u <= 0x0d) || u == 0x85 || u == 0xa0 || u == 0x1680 || (0x2000 <= u
        && u <= 0x200a) || u == 0x2028 || u == 0x2029 || u == 0x202f || u == 0x205f || u == 0x3000
}

/// First index at or after `i` that holds whitespace, or the length.
pub open spec fn word_end(s: Seq<char>, i: int) -> int
    decreases s.len() - i,
{
    if i < 0 || i >= s.len() || is_ws(s[i]) {
        i
    } else {
        word_end(s, i + 1)
    }
}

/// A word starts at `i` when `s[i]` is not whitespace and its left neighbour is.
pub open spec fn starts_word(s: Seq<char>, i: int) -> bool {
    0 <= i < s.len() && !is_ws(s[i]) && (i == 0 || is_ws(s[i - 1]))
}

/// The maximal runs of non-whitespace characters that start at or after `i`, in order.
pub open spec fn tokens_from(s: Seq<char>, i: int) -> Seq<Seq<char>>
    decreases s.len() - i,
{
    if i < 0 || i >= s.len() {
        seq![]
    } else if starts_word(s, i) {
        seq![s.subrange(i, word_end(s, i))] + tokens_from(s, i + 1)
    } else {
        tokens_from(s, i + 1)
    }
}

/// The whitespace-separated words of `s`.
pub open spec fn tokens(s: Seq<char>) -> Seq<Seq<char>> {
    tokens_from(s, 0)
}

/// Words joined with one space between neighbours.
pub open spec fn join_spaced(ts: Seq<Seq<char>>) -> Seq<char>
    decreases ts.len(),
{
    if ts.len() == 0 {
        seq![]
    } else if ts.len() == 1 {
        ts[0]
    } else {
        join_spaced(ts.drop_last()) + seq![' '] + ts.last()
    }
}

pub open spec fn is_digit(c: char) -> bool {
    '0' <= c && c <= '9'
}

pub open spec fn all_digits(s: Seq<char>) -> bool {
    forall|i: int| 0 <= i < s.len() ==> #[trigger] is_digit(s[i])
}

/// The value of a run of decimal digits.
pub open spec fn digits_value(s: Seq<char>) -> nat
    decreases s.len(),
{
    if s.len() == 0 {
        0
    } else {
        digits_value(s.drop_last()) * 10 + ((s.last() as u32 - '0' as u32) as nat)
    }
}

/// The digits of an unsigned decimal: `s` without one leading `+`.
pub open spec fn unsigned_digits(s: Seq<char>) -> Seq<char> {
    if s.len() > 0 && s[0] == '+' {
        s.drop_first()
    } else {
        s
    }
}

/// An unsigned decimal as `str::parse` reads it: an optional `+`, then at least one
/// digit and nothing else, with a value of at most `max`.
pub open spec fn parse_unsigned(s: Seq<char>, max: nat) -> Option<nat> {
    let d = unsigned_digits(s);
    if d.len() > 0 && all_digits(d) && digits_value(d) <= max {
        Some(digits_value(d))
    } else {
        None
    }
}

/// The character views of a sequence of character vectors.
pub open spec fn views(ts: Seq<Vec<char>>) -> Seq<Seq<char>> {
    ts.map_values(|t: Vec<char>| t@)
}

pub proof fn lemma_word_end(s: Seq<char>, i: int)
    requires
        0 <= i <= s.len(),
    ensures
        i <= word_end(s, i) <= s.len(),
        word_end(s, i) < s.len() ==> is_ws(s[word_end(s, i)]),
        forall|k: int| i <= k < word_end(s, i) ==> !is_ws(#[trigger] s[k]),
    decreases s.len() - i,
{
    if i < s.len() && !is_ws(s[i]) {
        lemma_word_end(s, i + 1);
    }
}

/// Inside a word no new word starts, so the tokens from just after its start are
/// those from its end.
proof fn lemma_tokens_skip_word(s: Seq<char>, i: int, j: int)
    requires
        0 <= i < j <= word_end(s, i),
        word_end(s, i) <= s.len(),
        forall|k: int| i <= k < word_end(s, i) ==> !is_ws(#[trigger] s[k]),
    ensures
        tokens_from(s, j) == tokens_from(s, word_end(s, i)),
    decreases word_end(s, i) - j,
{
    if j < word_end(s, i) {
        assert(!is_ws(s[j - 1]));
        assert(!starts_word(s, j));
        lemma_tokens_skip_word(s, i, j + 1);
    }
}

/// Relies on `String::push`: appends one character.
#[verifier::external_body]
fn push_char(s: &mut String, c: char)
    ensures
        final(s)@ == old(s)@.push(c),
{
    s.push(c)
}

/// Collects the characters of `s` in order.
pub fn collect_chars(s: &str) -> (v: Vec<char>)
    ensures
        v@ == s@,
{
    let mut it = s.chars();
    let mut v: Vec<char> = Vec::new();
    loop
        invariant
            v@ + it.remaining() == s@,
            it.decrease() is Some,
        ensures
            v@ == s@,
        decreases it.decrease()->0,
    {
        match it.next() {
            Some(c) => {
                v.push(c);
            },
            None => {
                assert(v@ + it.remaining() =~= v@);
                break;
            },
        }
    }
    v
}

/// A `String` holding the characters of `v`.
pub fn string_from_chars(v: &Vec<char>) -> (s: String)
    ensures
        s@ == v@,
{
    let mut s = String::new();
    let mut i: usize = 0;
    while i < v.len()
        invariant
            i <= v.len(),
            s@ == v@.subrange(0, i as int),
        decreases v.len() - i,
    {
        push_char(&mut s, v[i]);
        i += 1;
        assert(s@ =~= v@.subrange(0, i as int));
    }
    assert(v@.subrange(0, v.len() as int) =~= v@);
    s
}

/// The characters `v[a..b]`.
pub fn copy_range(v: &Vec<char>, a: usize, b: usize) -> (r: Vec<char>)
    requires
        a <= b <= v.len(),
    ensures
        r@ == v@.subrange(a as int, b as int),
{
    let mut r: Vec<char> = Vec::new();
    let mut i: usize = a;
    while i < b
        invariant
            a <= i <= b <= v.len(),
            r@ == v@.subrange(a as int, i as int),
        decreases b - i,
    {
        r.push(v[i]);
        i += 1;
        assert(r@ =~= v@.subrange(a as int, i as int));
    }
    r
}

pub fn is_whitespace(c: char) -> (r: bool)
    ensures
        r == is_ws(c),
{
    let u = c as u32;
    u == 0x20 || (0x09 <= u && u <= 0x0d) || u == 0x85 || u == 0xa0 || u == 0x1680 || (0x2000 <= u
        && u <= 0x200a) || u == 0x2028 || u == 0x2029 || u == 0x202f || u == 0x205f || u == 0x3000
}

/// Splits `s` into its whitespace-separated words.
pub fn split_words(s: &Vec<char>) -> (r: Vec<Vec<char>>)
    ensures
        views(r@) == tokens(s@),
{
    let n = s.len();
    let mut r: Vec<Vec<char>> = Vec::new();
    let mut i: usize = 0;
    while i < n
        invariant
            n == s.len(),
            i <= n,
            views(r@) + tokens_from(s@, i as int) == tokens(s@),
            0 < i < n && !is_ws(s@[i as int]) ==> is_ws(s@[i - 1]),
        decreases n - i,
    {
        if is_whitespace(s[i]) {
            i += 1;
        } else {
            let mut j: usize = i + 1;
            proof {
                lemma_word_end(s@, i as int);
            }
            while j < n && !is_whitespace(s[j])
                invariant
                    n == s.len(),
                    i < j <= n,
                    word_end(s@, j as int) == word_end(s@, i as int),
                decreases n - j,
            {
                j += 1;
            }
            assert(word_end(s@, i as int) == j);
            let w = copy_range(s, i, j);
            proof {
                assert(starts_word(s@, i as int));
                if i + 1 <= j {
                    lemma_tokens_skip_word(s@, i as int, i + 1);
                }
                if j < n {
                    lemma_word_end(s@, i as int);
                }
            }
            let ghost before = r@;
            r.push(w);
            proof {
                assert(views(r@) =~= views(before).push(w@));
                assert(views(r@) + tokens_from(s@, j as int) =~= views(before) + tokens_from(
                    s@,
                    i as int,
                ));
            }
            i = j;
        }
    }
    assert(views(r@) + tokens_from(s@, i as int) =~= views(r@));
    r
}

/// Words `ts[from..]` joined with single spaces.
pub fn join_words(ts: &Vec<Vec<char>>, from: usize) -> (r: Vec<char>)
    requires
        from <= ts.len(),
    ensures
        r@ == join_spaced(views(ts@).subrange(from as int, ts.len() as int)),
{
    let mut r: Vec<char> = Vec::new();
    let mut k: usize = from;
    while k < ts.len()
        invariant
            from <= k <= ts.len(),
            r@ == join_spaced(views(ts@).subrange(from as int, k as int)),
        decreases ts.len() - k,
    {
        let ghost prev = views(ts@).subrange(from as int, k as int);
        let ghost next = views(ts@).subrange(from as int, k + 1);
        assert(next.drop_last() =~= prev);
        if k > from {
            r.push(' ');
        }
        let t = &ts[k];
        let mut i: usize = 0;
        let ghost base = r@;
        while i < t.len()
            invariant
                i <= t.len(),
                r@ == base + t@.subrange(0, i as int),
            decreases t.len() - i,
        {
            r.push(t[i]);
            i += 1;
            assert(r@ =~= base + t@.subrange(0, i as int));
        }
        assert(t@.subrange(0, t.len() as int) =~= t@);
        proof {
            if k == from {
                assert(prev.len() == 0);
                assert(r@ =~= next[0]);
            } else {
                assert(r@ =~= join_spaced(prev) + seq![' '] + next.last());
            }
        }
        k += 1;
    }
    r
}

proof fn lemma_digits_prefix_le(d: Seq<char>, k: int)
    requires
        0 <= k <= d.len(),
    ensures
        digits_value(d.take(k)) <= digits_value(d),
    decreases d.len() - k,
{
    if k < d.len() {
        lemma_digits_prefix_le(d, k + 1);
        assert(d.take(k + 1).drop_last() =~= d.take(k));
    } else {
        assert(d.take(k) =~= d);
    }
}

/// Reads an unsigned decimal as `str::parse` does, rejecting values above `max`.
pub fn parse_unsigned_chars(t: &Vec<char>, max: u64) -> (r: Option<u64>)
    ensures
        match parse_unsigned(t@, max as nat) {
            Some(v) => r == Some(v as u64),
            None => r is None,
        },
{
    let st: usize = if t.len() > 0 && t[0] == '+' {
        1
    } else {
        0
    };
    let ghost d = unsigned_digits(t@);
    assert(d =~= t@.subrange(st as int, t.len() as int));
    if st == t.len() {
        return None;
    }
    let mut acc: u64 = 0;
    let mut k: usize = st;
    while k < t.len()
        invariant
            st <= k <= t.len(),
            d == t@.subrange(st as int, t.len() as int),
            d == unsigned_digits(t@),
            acc as nat == digits_value(d.take(k - st)),
            acc <= max,
            forall|i: int| 0 <= i < k - st ==> #[trigger] is_digit(d[i]),
        decreases t.len() - k,
    {
        let c = t[k];
        if !('0' <= c && c <= '9') {
            assert(!is_digit(d[k - st]));
            assert(!all_digits(d));
            return None;
        }
        let dig = (c as u32 - '0' as u32) as u64;
        let next: u128 = acc as u128 * 10 + dig as u128;
        assert(d.take(k + 1 - st).drop_last() =~= d.take(k - st));
        if next > max as u128 {
            proof {
                if all_digits(d) {
                    lemma_digits_prefix_le(d, k + 1 - st);
                    assert(d.take(k + 1 - st).last() == c);
                    assert(digits_value(d.take(k + 1 - st)) == next);
                    assert(digits_value(d) > max);
                }
            }
            return None;
        }
        acc = next as u64;
        k += 1;
    }
    assert(d.take(k - st) =~= d);
    Some(acc)
}

} // verus!
