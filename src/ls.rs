//! Parser for the output of a remote long-format listing (`ls -l`).

use vstd::prelude::*;

use crate::calendar::{
    civil_to_epoch, days_in_month, epoch_seconds, month_days, valid_year, year_of_epoch_seconds,
};
use crate::text::{
    all_digits, collect_chars, copy_range, digits_value, join_spaced, join_words, parse_unsigned,
    parse_unsigned_chars, split_words, string_from_chars, tokens, views,
};

verus! {

/// One parsed listing row.
#[derive(Debug, Clone)]
pub struct FileMeta {
    /// True for directories and for symbolic links.
    pub directory: bool,
    /// The mode word as listed, such as `drwxr-xr-x`.
    pub permissions: String,
    /// The nine rwx bits of the mode word, or `0o7777` for a symbolic link.
    pub perms: u16,
    pub links: u16,
    pub owner_name: String,
    pub owner_group: String,
    /// Size in bytes; 0 where the listing shows a non-numeric size such as `6.7K`.
    pub file_size: u64,
    pub month: String,
    pub date: String,
    pub time_year: String,
    pub name: String,
    /// Modification time in seconds since the Unix epoch, UTC.
    pub modified_since: i64,
}

/// What a row holds, in mathematical terms.
pub struct RowView {
    pub directory: bool,
    pub permissions: Seq<char>,
    pub perms: int,
    pub links: int,
    pub owner_name: Seq<char>,
    pub owner_group: Seq<char>,
    pub file_size: int,
    pub month: Seq<char>,
    pub date: Seq<char>,
    pub time_year: Seq<char>,
    pub name: Seq<char>,
    pub modified_since: int,
}

impl View for FileMeta {
    type V = RowView;

    open spec fn view(&self) -> RowView {
        RowView {
            directory: self.directory,
            permissions: self.permissions@,
            perms: self.perms as int,
            links: self.links as int,
            owner_name: self.owner_name@,
            owner_group: self.owner_group@,
            file_size: self.file_size as int,
            month: self.month@,
            date: self.date@,
            time_year: self.time_year@,
            name: self.name@,
            modified_since: self.modified_since as int,
        }
    }
}

/// The permissions value that stands for "unknown": every bit set.
pub const UNKNOWN_PERMS: u16 = 0o7777;

/// The value of the `rwx` triple that starts at `k`: 4 for `r`, 2 for `w`, 1 for `x`,
/// each in its own place; any other or a missing character counts 0.
pub open spec fn triple_value(m: Seq<char>, k: int) -> int {
    (if 0 <= k < m.len() && m[k] == 'r' {
        4int
    } else {
        0int
    }) + (if 0 <= k + 1 < m.len() && m[k + 1] == 'w' {
        2int
    } else {
        0int
    }) + (if 0 <= k + 2 < m.len() && m[k + 2] == 'x' {
        1int
    } else {
        0int
    })
}

/// The owner, group and other triples of a mode word packed as octal digits.
pub open spec fn mode_bits(m: Seq<char>) -> int {
    triple_value(m, 1) * 64 + triple_value(m, 4) * 8 + triple_value(m, 7)
}

pub open spec fn is_symlink_mode(m: Seq<char>) -> bool {
    m.len() > 0 && m[0] == 'l'
}

pub open spec fn is_dir_mode(m: Seq<char>) -> bool {
    m.len() > 0 && (m[0] == 'd' || m[0] == 'l')
}

/// The permissions stored for a mode word.
pub open spec fn stored_perms(m: Seq<char>) -> int {
    if is_symlink_mode(m) {
        UNKNOWN_PERMS as int
    } else {
        mode_bits(m)
    }
}

/// Index of the first ` -> ` at or after `i`, or the length when there is none.
pub open spec fn first_arrow(s: Seq<char>, i: int) -> int
    decreases s.len() - i,
{
    if i < 0 || i + 4 > s.len() {
        s.len() as int
    } else if s[i] == ' ' && s[i + 1] == '-' && s[i + 2] == '>' && s[i + 3] == ' ' {
        i
    } else {
        first_arrow(s, i + 1)
    }
}

/// A symbolic link's name: what stands before its first ` -> `.
pub open spec fn before_arrow(s: Seq<char>) -> Seq<char> {
    s.take(first_arrow(s, 0))
}

/// English three-letter month abbreviations.
pub open spec fn month_number(t: Seq<char>) -> Option<int> {
    if t == seq!['J', 'a', 'n'] {
        Some(1)
    } else if t == seq!['F', 'e', 'b'] {
        Some(2)
    } else if t == seq!['M', 'a', 'r'] {
        Some(3)
    } else if t == seq!['A', 'p', 'r'] {
        Some(4)
    } else if t == seq!['M', 'a', 'y'] {
        Some(5)
    } else if t == seq!['J', 'u', 'n'] {
        Some(6)
    } else if t == seq!['J', 'u', 'l'] {
        Some(7)
    } else if t == seq!['A', 'u', 'g'] {
        Some(8)
    } else if t == seq!['S', 'e', 'p'] {
        Some(9)
    } else if t == seq!['O', 'c', 't'] {
        Some(10)
    } else if t == seq!['N', 'o', 'v'] {
        Some(11)
    } else if t == seq!['D', 'e', 'c'] {
        Some(12)
    } else {
        None
    }
}

/// The month and the day word of the two date words. GNU listings put the month
/// first (`Mar 3`); BSD listings in some locales put the day first (`26 Jun`).
pub open spec fn date_parts(a: Seq<char>, b: Seq<char>) -> Option<(int, Seq<char>)> {
    match month_number(a) {
        Some(m) => Some((m, b)),
        None => match month_number(b) {
            Some(m) => Some((m, a)),
            None => None,
        },
    }
}

pub open spec fn has_colon(t: Seq<char>) -> bool {
    exists|i: int| 0 <= i < t.len() && t[i] == ':'
}

/// `H:MM` or `HH:MM`, with hours up to 23 and minutes up to 59.
pub open spec fn parse_clock(t: Seq<char>) -> Option<(int, int)> {
    let c = t.len() - 3;
    if (t.len() == 4 || t.len() == 5) && t[c] == ':' && all_digits(t.take(c)) && all_digits(
        t.skip(c + 1),
    ) && digits_value(t.take(c)) <= 23 && digits_value(t.skip(c + 1)) <= 59 {
        Some((digits_value(t.take(c)) as int, digits_value(t.skip(c + 1)) as int))
    } else {
        None
    }
}

/// A four-digit year from 0001 to 9999.
pub open spec fn parse_year(t: Seq<char>) -> Option<int> {
    if t.len() == 4 && all_digits(t) && digits_value(t) >= 1 {
        Some(digits_value(t) as int)
    } else {
        None
    }
}

/// Year, hour and minute of the time-or-year word; a clock time falls in `year`.
pub open spec fn row_time(t: Seq<char>, year: int) -> Option<(int, int, int)> {
    if has_colon(t) {
        match parse_clock(t) {
            Some((hh, mi)) => if valid_year(year) {
                Some((year, hh, mi))
            } else {
                None
            },
            None => None,
        }
    } else {
        match parse_year(t) {
            Some(y) => Some((y, 0, 0)),
            None => None,
        }
    }
}

pub open spec fn size_value(t: Seq<char>) -> int {
    match parse_unsigned(t, u64::MAX as nat) {
        Some(v) => v as int,
        None => 0,
    }
}

/// The row that a listing line describes, if it is one: eight words (mode, links,
/// owner, group, size, two date words, time or year), then the name. `year` is the
/// year given to rows that show a clock time.
pub open spec fn parse_row(line: Seq<char>, year: int) -> Option<RowView> {
    let t = tokens(line);
    if t.len() < 8 {
        None
    } else {
        let links = parse_unsigned(t[1], 65535);
        let md = date_parts(t[5], t[6]);
        let when = row_time(t[7], year);
        if links is None || md is None || when is None {
            None
        } else {
            let (m, dtok) = md->0;
            let (y, hh, mi) = when->0;
            let day = parse_unsigned(dtok, 31);
            if day is None || day->0 < 1 || day->0 > days_in_month(y, m) {
                None
            } else {
                let rest = join_spaced(t.skip(8));
                Some(
                    RowView {
                        directory: is_dir_mode(t[0]),
                        permissions: t[0],
                        perms: stored_perms(t[0]),
                        links: links->0 as int,
                        owner_name: t[2],
                        owner_group: t[3],
                        file_size: size_value(t[4]),
                        month: t[5],
                        date: t[6],
                        time_year: t[7],
                        name: if is_symlink_mode(t[0]) {
                            before_arrow(rest)
                        } else {
                            rest
                        },
                        modified_since: epoch_seconds(y, m, day->0 as int, hh, mi),
                    },
                )
            }
        }
    }
}

/// First index at or after `i` that holds a newline, or the length.
pub open spec fn line_end(s: Seq<char>, i: int) -> int
    decreases s.len() - i,
{
    if i < 0 || i >= s.len() || s[i] == '\n' {
        i
    } else {
        line_end(s, i + 1)
    }
}

/// A line starts at 0 and after each newline (so also at the very end after a final one).
pub open spec fn starts_line(s: Seq<char>, i: int) -> bool {
    0 <= i <= s.len() && (i == 0 || s[i - 1] == '\n')
}

pub open spec fn row_seq(o: Option<RowView>) -> Seq<RowView> {
    match o {
        Some(r) => seq![r],
        None => seq![],
    }
}

/// Rows of the lines that start at or after `i`, in order; lines that are not rows
/// are skipped.
pub open spec fn rows_from(s: Seq<char>, i: int, year: int) -> Seq<RowView>
    decreases s.len() + 1 - i,
{
    if i < 0 || i > s.len() {
        seq![]
    } else {
        (if starts_line(s, i) {
            row_seq(parse_row(s.subrange(i, line_end(s, i)), year))
        } else {
            seq![]
        }) + rows_from(s, i + 1, year)
    }
}

/// The rows of a whole listing.
pub open spec fn parse_listing(s: Seq<char>, year: int) -> Seq<RowView> {
    rows_from(s, 0, year)
}

pub open spec fn rows_view(v: Seq<FileMeta>) -> Seq<RowView> {
    v.map_values(|m: FileMeta| m@)
}

/// The value of the `rwx` triple of `mode` that starts at `start`.
pub fn permissions_octet(mode: &Vec<char>, start: usize) -> (r: u16)
    requires
        start <= 7,
    ensures
        r == triple_value(mode@, start as int),
        r <= 7,
{
    let n = mode.len();
    let mut v: u16 = 0;
    if start < n && mode[start] == 'r' {
        v += 4;
    }
    if start + 1 < n && mode[start + 1] == 'w' {
        v += 2;
    }
    if start + 2 < n && mode[start + 2] == 'x' {
        v += 1;
    }
    v
}

/// The permissions stored for a mode word: its nine rwx bits, or every bit for a
/// symbolic link.
pub fn decode_perms(mode: &Vec<char>) -> (r: u16)
    ensures
        r == stored_perms(mode@),
{
    if mode.len() > 0 && mode[0] == 'l' {
        UNKNOWN_PERMS
    } else {
        permissions_octet(mode, 1) * 64 + permissions_octet(mode, 4) * 8 + permissions_octet(
            mode,
            7,
        )
    }
}

fn is_word3(t: &Vec<char>, a: char, b: char, c: char) -> (r: bool)
    ensures
        r == (t@ == seq![a, b, c]),
{
    if t.len() == 3 && t[0] == a && t[1] == b && t[2] == c {
        assert(t@ =~= seq![a, b, c]);
        true
    } else {
        false
    }
}

/// The month that an English three-letter abbreviation names.
pub fn month_of(t: &Vec<char>) -> (r: Option<u32>)
    ensures
        match month_number(t@) {
            Some(m) => r == Some(m as u32),
            None => r is None,
        },
{
    if is_word3(t, 'J', 'a', 'n') {
        Some(1)
    } else if is_word3(t, 'F', 'e', 'b') {
        Some(2)
    } else if is_word3(t, 'M', 'a', 'r') {
        Some(3)
    } else if is_word3(t, 'A', 'p', 'r') {
        Some(4)
    } else if is_word3(t, 'M', 'a', 'y') {
        Some(5)
    } else if is_word3(t, 'J', 'u', 'n') {
        Some(6)
    } else if is_word3(t, 'J', 'u', 'l') {
        Some(7)
    } else if is_word3(t, 'A', 'u', 'g') {
        Some(8)
    } else if is_word3(t, 'S', 'e', 'p') {
        Some(9)
    } else if is_word3(t, 'O', 'c', 't') {
        Some(10)
    } else if is_word3(t, 'N', 'o', 'v') {
        Some(11)
    } else if is_word3(t, 'D', 'e', 'c') {
        Some(12)
    } else {
        None
    }
}

/// The value of the digits `t[a..b]`, if all of them are digits.
fn small_digits(t: &Vec<char>, a: usize, b: usize) -> (r: Option<u32>)
    requires
        a <= b <= t.len(),
        b - a <= 4,
    ensures
        all_digits(t@.subrange(a as int, b as int)) <==> r is Some,
        r is Some ==> r->0 as nat == digits_value(t@.subrange(a as int, b as int)) && r->0 < 10000,
{
    let mut acc: u32 = 0;
    let mut k: usize = a;
    while k < b
        invariant
            a <= k <= b <= t.len(),
            b - a <= 4,
            all_digits(t@.subrange(a as int, k as int)),
            acc == digits_value(t@.subrange(a as int, k as int)),
            acc < pow10(k - a),
            acc < 10000,
        decreases b - k,
    {
        let c = t[k];
        if !('0' <= c && c <= '9') {
            assert(t@.subrange(a as int, b as int)[k - a] == c);
            assert(!crate::text::is_digit(t@.subrange(a as int, b as int)[k - a]));
            return None;
        }
        assert(t@.subrange(a as int, k + 1).drop_last() =~= t@.subrange(a as int, k as int));
        proof {
            lemma_pow10_small(k - a);
        }
        acc = acc * 10 + (c as u32 - '0' as u32);
        k += 1;
        assert(pow10(k - a) == 10 * pow10(k - a - 1));
        assert(all_digits(t@.subrange(a as int, k as int))) by {
            assert forall|i: int| 0 <= i < k - a implies #[trigger] crate::text::is_digit(
                t@.subrange(a as int, k as int)[i],
            ) by {
                if i < k - 1 - a {
                    assert(t@.subrange(a as int, k as int)[i] == t@.subrange(a as int, k - 1)[i]);
                }
            }
        }
    }
    Some(acc)
}

fn contains_colon(t: &Vec<char>) -> (r: bool)
    ensures
        r == has_colon(t@),
{
    let mut i: usize = 0;
    while i < t.len()
        invariant
            i <= t.len(),
            forall|j: int| 0 <= j < i ==> t@[j] != ':',
        decreases t.len() - i,
    {
        if t[i] == ':' {
            return true;
        }
        i += 1;
    }
    false
}

/// Hours and minutes of a clock word.
pub fn clock_of(t: &Vec<char>) -> (r: Option<(u32, u32)>)
    ensures
        r is Some <==> parse_clock(t@) is Some,
        match r {
            Some((hh, mi)) => parse_clock(t@) == Some((hh as int, mi as int)),
            None => true,
        },
{
    let n = t.len();
    if !(n == 4 || n == 5) || t[n - 3] != ':' {
        return None;
    }
    let c = n - 3;
    assert(t@.subrange(0, c as int) =~= t@.take(c as int));
    assert(t@.subrange(c + 1, n as int) =~= t@.skip(c + 1));
    match (small_digits(t, 0, c), small_digits(t, c + 1, n)) {
        (Some(hh), Some(mi)) => {
            if hh <= 23 && mi <= 59 {
                Some((hh, mi))
            } else {
                None
            }
        },
        _ => None,
    }
}

/// A four-digit year from 0001 to 9999.
pub fn year_of(t: &Vec<char>) -> (r: Option<u32>)
    ensures
        r is Some <==> parse_year(t@) is Some,
        r is Some ==> parse_year(t@) == Some(r->0 as int) && valid_year(r->0 as int),
{
    if t.len() != 4 {
        return None;
    }
    assert(t@.subrange(0, 4) =~= t@);
    match small_digits(t, 0, 4) {
        Some(y) => if y >= 1 {
            Some(y)
        } else {
            None
        },
        None => None,
    }
}

/// Year, hour and minute of the time-or-year word.
pub fn time_of(t: &Vec<char>, year: u32) -> (r: Option<(u32, u32, u32)>)
    ensures
        match row_time(t@, year as int) {
            Some((y, hh, mi)) => r == Some((y as u32, hh as u32, mi as u32)) && valid_year(y)
                && 0 <= hh <= 23 && 0 <= mi <= 59,
            None => r is None,
        },
{
    if contains_colon(t) {
        match clock_of(t) {
            Some((hh, mi)) => {
                assert(parse_clock(t@) == Some((hh as int, mi as int)));
                if 1 <= year && year <= 9999 {
                    Some((year, hh, mi))
                } else {
                    None
                }
            },
            None => None,
        }
    } else {
        match year_of(t) {
            Some(y) => {
                assert(parse_year(t@) == Some(y as int));
                Some((y, 0, 0))
            },
            None => None,
        }
    }
}

/// The part of `s` before its first ` -> `.
pub fn name_before_arrow(s: &Vec<char>) -> (r: Vec<char>)
    ensures
        r@ == before_arrow(s@),
{
    let n = s.len();
    let mut i: usize = 0;
    while n >= 4 && i <= n - 4 && !(s[i] == ' ' && s[i + 1] == '-' && s[i + 2] == '>' && s[i + 3]
        == ' ')
        invariant
            n == s.len(),
            i <= n,
            first_arrow(s@, i as int) == first_arrow(s@, 0),
        decreases n - i,
    {
        i += 1;
    }
    let e = if n < 4 || i > n - 4 {
        n
    } else {
        i
    };
    assert(e == first_arrow(s@, 0));
    copy_range(s, 0, e)
}

proof fn lemma_pow10_small(n: int)
    requires
        0 <= n <= 4,
    ensures
        pow10(n) <= 10000,
        n <= 3 ==> pow10(n) <= 1000,
        n <= 2 ==> pow10(n) <= 100,
        n <= 1 ==> pow10(n) <= 10,
    decreases n,
{
    if n > 0 {
        lemma_pow10_small(n - 1);
    }
}

/// The row that the line `line` describes, if it is one. Clock times fall in
/// `current_year`.
pub fn parse_row_chars(line: &Vec<char>, current_year: u32) -> (r: Option<FileMeta>)
    ensures
        match parse_row(line@, current_year as int) {
            Some(v) => r is Some && r->0@ == v,
            None => r is None,
        },
{
    let t = split_words(line);
    let ghost tk = tokens(line@);
    assert(forall|k: int| 0 <= k < t.len() ==> #[trigger] t@[k]@ == tk[k]);
    if t.len() < 8 {
        return None;
    }
    let links = match parse_unsigned_chars(&t[1], 65535) {
        Some(v) => v as u16,
        None => {
            return None;
        },
    };
    let (m, day_word): (u32, usize) = match month_of(&t[5]) {
        Some(m) => (m, 6),
        None => match month_of(&t[6]) {
            Some(m) => (m, 5),
            None => {
                return None;
            },
        },
    };
    assert(date_parts(tk[5], tk[6]) == Some((m as int, tk[day_word as int])));
    let (y, hh, mi) = match time_of(&t[7], current_year) {
        Some(w) => w,
        None => {
            return None;
        },
    };
    let day = match parse_unsigned_chars(&t[day_word], 31) {
        Some(d) => d as u32,
        None => {
            return None;
        },
    };
    if day < 1 || day > month_days(y, m) {
        return None;
    }
    let file_size = match parse_unsigned_chars(&t[4], u64::MAX) {
        Some(v) => v,
        None => 0,
    };
    let rest = join_words(&t, 8);
    assert(views(t@).subrange(8, t.len() as int) =~= tk.skip(8));
    let is_link = t[0].len() > 0 && t[0][0] == 'l';
    let directory = t[0].len() > 0 && (t[0][0] == 'd' || t[0][0] == 'l');
    let name_chars = if is_link {
        name_before_arrow(&rest)
    } else {
        rest
    };
    let meta = FileMeta {
        directory,
        permissions: string_from_chars(&t[0]),
        perms: decode_perms(&t[0]),
        links,
        owner_name: string_from_chars(&t[2]),
        owner_group: string_from_chars(&t[3]),
        file_size,
        month: string_from_chars(&t[5]),
        date: string_from_chars(&t[6]),
        time_year: string_from_chars(&t[7]),
        name: string_from_chars(&name_chars),
        modified_since: civil_to_epoch(y, m, day, hh, mi),
    };
    Some(meta)
}

/// What holds of every row a listing can yield.
pub open spec fn row_is_valid(r: RowView) -> bool {
    &&& r.perms == stored_perms(r.permissions)
    &&& r.directory == is_dir_mode(r.permissions)
    &&& (0 <= r.perms <= 0o777 || r.perms == UNKNOWN_PERMS as int)
    &&& 0 <= r.links <= 65535
    &&& 0 <= r.file_size <= u64::MAX
}

/// Parsing never fails as a whole: whatever the input, the listing is a sequence
/// of rows, possibly empty, and every row in it is well formed.
pub proof fn lemma_listing_rows_valid(s: Seq<char>, year: int)
    ensures
        forall|i: int|
            0 <= i < parse_listing(s, year).len() ==> row_is_valid(
                #[trigger] parse_listing(s, year)[i],
            ),
{
    lemma_rows_from_valid(s, 0, year);
}

proof fn lemma_rows_from_valid(s: Seq<char>, i: int, year: int)
    ensures
        forall|j: int|
            0 <= j < rows_from(s, i, year).len() ==> row_is_valid(#[trigger] rows_from(s, i, year)[j]),
    decreases s.len() + 1 - i,
{
    if 0 <= i <= s.len() {
        lemma_rows_from_valid(s, i + 1, year);
        let head = if starts_line(s, i) {
            row_seq(parse_row(s.subrange(i, line_end(s, i)), year))
        } else {
            seq![]
        };
        if head.len() > 0 {
            let t = tokens(s.subrange(i, line_end(s, i)));
            assert(mode_bits(t[0]) <= 0o777);
        }
        assert forall|j: int| 0 <= j < rows_from(s, i, year).len() implies row_is_valid(
            #[trigger] rows_from(s, i, year)[j],
        ) by {
            if j >= head.len() {
                assert(rows_from(s, i, year)[j] == rows_from(s, i + 1, year)[j - head.len()]);
            }
        }
    }
}

/// The symbolic form of one octal digit: `r`, `w`, `x` for the bits 4, 2, 1.
pub open spec fn triple_chars(d: int) -> Seq<char> {
    seq![
        if d / 4 % 2 == 1 {
            'r'
        } else {
            '-'
        },
        if d / 2 % 2 == 1 {
            'w'
        } else {
            '-'
        },
        if d % 2 == 1 {
            'x'
        } else {
            '-'
        },
    ]
}

/// The nine-character symbolic form of a permission value below `0o1000`.
pub open spec fn symbolic_perms(v: int) -> Seq<char> {
    triple_chars(v / 64) + triple_chars(v / 8 % 8) + triple_chars(v % 8)
}

/// A mode word whose permission part is in the symbolic `rwxr-xr-x` form.
pub open spec fn is_symbolic_mode(m: Seq<char>) -> bool {
    &&& m.len() == 10
    &&& m[0] != 'l'
    &&& symbolic_triple(m, 1)
    &&& symbolic_triple(m, 4)
    &&& symbolic_triple(m, 7)
}

pub open spec fn symbolic_triple(m: Seq<char>, k: int) -> bool {
    &&& (m[k] == 'r' || m[k] == '-')
    &&& (m[k + 1] == 'w' || m[k + 1] == '-')
    &&& (m[k + 2] == 'x' || m[k + 2] == '-')
}

proof fn lemma_triple_round_trip(d: int)
    requires
        0 <= d < 8,
    ensures
        triple_value(seq!['-'] + triple_chars(d), 1) == d,
{
    let m = seq!['-'] + triple_chars(d);
    assert(m[1] == triple_chars(d)[0]);
    assert(m[2] == triple_chars(d)[1]);
    assert(m[3] == triple_chars(d)[2]);
}

proof fn lemma_triple_back(m: Seq<char>, k: int)
    requires
        0 <= k,
        k + 2 < m.len(),
        symbolic_triple(m, k),
    ensures
        triple_chars(triple_value(m, k)) =~= m.subrange(k, k + 3),
        0 <= triple_value(m, k) < 8,
{
}

proof fn lemma_octal_digits(v: int)
    requires
        0 <= v < 0o1000,
    ensures
        v / 64 * 64 + v / 8 % 8 * 8 + v % 8 == v,
        0 <= v / 64 < 8,
        0 <= v / 8 % 8 < 8,
        0 <= v % 8 < 8,
{
    assert(v / 64 * 64 + v / 8 % 8 * 8 + v % 8 == v) by (nonlinear_arith)
        requires
            0 <= v < 512,
    ;
    assert(0 <= v / 64 < 8) by (nonlinear_arith)
        requires
            0 <= v < 512,
    ;
}

proof fn lemma_octal_split(x: int, y: int, z: int)
    requires
        0 <= x < 8,
        0 <= y < 8,
        0 <= z < 8,
    ensures
        (x * 64 + y * 8 + z) / 64 == x,
        (x * 64 + y * 8 + z) / 8 % 8 == y,
        (x * 64 + y * 8 + z) % 8 == z,
{
    assert((x * 64 + y * 8 + z) / 64 == x) by (nonlinear_arith)
        requires
            0 <= x < 8,
            0 <= y < 8,
            0 <= z < 8,
    ;
    assert((x * 64 + y * 8 + z) / 8 == x * 8 + y) by (nonlinear_arith)
        requires
            0 <= x < 8,
            0 <= y < 8,
            0 <= z < 8,
    ;
    assert((x * 8 + y) % 8 == y) by (nonlinear_arith)
        requires
            0 <= x < 8,
            0 <= y < 8,
    ;
    assert((x * 64 + y * 8 + z) % 8 == z) by (nonlinear_arith)
        requires
            0 <= x < 8,
            0 <= y < 8,
            0 <= z < 8,
    ;
}

/// Decoding the symbolic form of any permission value gives the value back.
pub proof fn lemma_perms_decode_symbolic(kind: char, v: int)
    requires
        kind != 'l',
        0 <= v < 0o1000,
    ensures
        stored_perms(seq![kind] + symbolic_perms(v)) == v,
{
    let w = seq![kind] + symbolic_perms(v);
    let (a, b, c) = (v / 64, v / 8 % 8, v % 8);
    lemma_octal_digits(v);
    lemma_triple_round_trip(a);
    lemma_triple_round_trip(b);
    lemma_triple_round_trip(c);
    assert(w[1] == triple_chars(a)[0] && w[2] == triple_chars(a)[1] && w[3] == triple_chars(a)[2]);
    assert(w[4] == triple_chars(b)[0] && w[5] == triple_chars(b)[1] && w[6] == triple_chars(b)[2]);
    assert(w[7] == triple_chars(c)[0] && w[8] == triple_chars(c)[1] && w[9] == triple_chars(c)[2]);
    assert(triple_value(w, 1) == a);
    assert(triple_value(w, 4) == b);
    assert(triple_value(w, 7) == c);
}

/// Re-encoding the decoded value of a symbolic mode word gives its permission
/// part back: the word `-rwxr-xr-x` decodes to `0o755`, `-rw-r--r--` to `0o644`.
pub proof fn lemma_perms_encode_decoded(m: Seq<char>)
    requires
        is_symbolic_mode(m),
    ensures
        0 <= stored_perms(m) < 0o1000,
        symbolic_perms(stored_perms(m)) == m.subrange(1, 10),
{
    lemma_triple_back(m, 1);
    lemma_triple_back(m, 4);
    lemma_triple_back(m, 7);
    let (x, y, z) = (triple_value(m, 1), triple_value(m, 4), triple_value(m, 7));
    lemma_octal_split(x, y, z);
    assert(symbolic_perms(stored_perms(m)) =~= m.subrange(1, 4) + m.subrange(4, 7) + m.subrange(7, 10));
    assert(m.subrange(1, 4) + m.subrange(4, 7) + m.subrange(7, 10) =~= m.subrange(1, 10));
}

proof fn lemma_line_end(s: Seq<char>, i: int)
    requires
        0 <= i <= s.len(),
    ensures
        i <= line_end(s, i) <= s.len(),
        forall|k: int| i <= k < line_end(s, i) ==> #[trigger] s[k] != '\n',
    decreases s.len() - i,
{
    if i < s.len() && s[i] != '\n' {
        lemma_line_end(s, i + 1);
    }
}

/// Positions inside a line start no line, so the rows from just after a line's
/// start are those after its end.
proof fn lemma_rows_skip_line(s: Seq<char>, i: int, j: int, year: int)
    requires
        0 <= i < j <= line_end(s, i) + 1,
        line_end(s, i) <= s.len(),
        forall|k: int| i <= k < line_end(s, i) ==> #[trigger] s[k] != '\n',
    ensures
        rows_from(s, j, year) == rows_from(s, line_end(s, i) + 1, year),
    decreases line_end(s, i) + 1 - j,
{
    if j <= line_end(s, i) {
        assert(s[j - 1] != '\n');
        assert(!starts_line(s, j));
        lemma_rows_skip_line(s, i, j + 1, year);
    }
}

/// The rows of the listing `ls`; clock times fall in `current_year`.
pub fn parse_long_list_in_year(ls: &str, current_year: u32) -> (r: Vec<FileMeta>)
    ensures
        rows_view(r@) == parse_listing(ls@, current_year as int),
{
    let s = collect_chars(ls);
    let n = s.len();
    let ghost year = current_year as int;
    let mut out: Vec<FileMeta> = Vec::new();
    let mut i: usize = 0;
    let mut done = false;
    while !done
        invariant
            n == s.len(),
            s@ == ls@,
            year == current_year as int,
            i <= n,
            starts_line(s@, i as int),
            !done ==> rows_view(out@) + rows_from(s@, i as int, year) == parse_listing(s@, year),
            done ==> rows_view(out@) == parse_listing(s@, year),
        decreases n - i + (if done {
            0int
        } else {
            1int
        }),
    {
        let mut e: usize = i;
        while e < n && s[e] != '\n'
            invariant
                n == s.len(),
                i <= e <= n,
                line_end(s@, e as int) == line_end(s@, i as int),
            decreases n - e,
        {
            e += 1;
        }
        proof {
            lemma_line_end(s@, i as int);
        }
        let line = copy_range(&s, i, e);
        let row = parse_row_chars(&line, current_year);
        let ghost before = out@;
        let ghost parsed = parse_row(s@.subrange(i as int, e as int), year);
        match row {
            Some(m) => {
                out.push(m);
                assert(rows_view(out@) =~= rows_view(before) + row_seq(parsed));
            },
            None => {
                assert(rows_view(out@) =~= rows_view(before) + row_seq(parsed));
            },
        }
        proof {
            lemma_rows_skip_line(s@, i as int, i + 1, year);
        }
        if e < n {
            i = e + 1;
        } else {
            done = true;
            assert(rows_from(s@, e + 1, year) =~= Seq::<RowView>::empty());
            assert(rows_view(out@) =~= rows_view(out@) + rows_from(s@, e + 1, year));
        }
    }
    out
}

/// The row that one listing line describes, if it is one; clock times fall in
/// `current_year`.
pub fn parse_long_list_line(line: &str, current_year: u32) -> (r: Option<FileMeta>)
    ensures
        match parse_row(line@, current_year as int) {
            Some(v) => r is Some && r->0@ == v,
            None => r is None,
        },
{
    let chars = collect_chars(line);
    parse_row_chars(&chars, current_year)
}

/// Relies on `SystemTime::elapsed` of the Unix epoch: the whole seconds from the
/// epoch to the system clock's present time, or 0 when the clock stands before it.
/// Nothing is promised of the value.
#[verifier::external_body]
fn unix_now_seconds() -> (r: u64) {
    match std::time::UNIX_EPOCH.elapsed() {
        Ok(d) => d.as_secs(),
        Err(_) => 0,
    }
}

/// The current UTC year, from the system clock.
pub fn current_utc_year() -> (y: u32)
    ensures
        1970 <= y <= 9999,
{
    year_of_epoch_seconds(unix_now_seconds())
}

/// The rows of the listing `ls`; clock times fall in the current UTC year.
pub fn parse_long_list(ls: &str) -> (r: Vec<FileMeta>)
    ensures
        exists|y: int| 1970 <= y <= 9999 && rows_view(r@) == parse_listing(ls@, y),
{
    let y = current_utc_year();
    parse_long_list_in_year(ls, y)
}

spec fn pow10(n: int) -> int
    decreases n,
{
    if n <= 0 {
        1
    } else {
        10 * pow10(n - 1)
    }
}

} // verus!
