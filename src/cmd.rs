//! The remote commands: how an ssh invocation is composed, and how its output
//! becomes listing rows.

use vstd::prelude::*;

use crate::ls::{parse_listing, parse_long_list_in_year, rows_view, FileMeta};
use crate::text::{collect_chars, split_words, string_from_chars, tokens, views};

verus! {

/// The parameters of the ssh transport.
#[derive(Debug, Clone)]
pub struct SshCmd {
    user: String,
    target: String,
    options: String,
}

/// `ssh <options> <user>@<target> -- <cmd>`.
pub open spec fn full_command(
    options: Seq<char>,
    user: Seq<char>,
    target: Seq<char>,
    cmd: Seq<char>,
) -> Seq<char> {
    seq!['s', 's', 'h', ' '] + options + seq![' '] + user + seq!['@'] + target + seq![
        ' ',
        '-',
        '-',
        ' ',
    ] + cmd
}

/// `ls -l <path>`, with a trailing slash added when `path` has none.
pub open spec fn listing_command(path: Seq<char>) -> Seq<char> {
    seq!['l', 's', ' ', '-', 'l', ' '] + if path.len() > 0 && path.last() == '/' {
        path
    } else {
        path.push('/')
    }
}

/// `cat <path>`.
pub open spec fn file_command(path: Seq<char>) -> Seq<char> {
    seq!['c', 'a', 't', ' '] + path
}

/// Relies on `String::from_utf8`: it succeeds exactly on valid UTF-8, and then
/// holds the characters that the bytes encode.
#[verifier::external_body]
fn decode_utf8_text(bytes: Vec<u8>) -> (r: Option<String>)
    ensures
        r is Some <==> vstd::utf8::valid_utf8(bytes@),
        r is Some ==> r->0@ == vstd::utf8::decode_utf8(bytes@),
{
    String::from_utf8(bytes).ok()
}

fn push_str(v: &mut Vec<char>, s: &str)
    ensures
        final(v)@ == old(v)@ + s@,
{
    let c = collect_chars(s);
    let mut i: usize = 0;
    let ghost base = v@;
    while i < c.len()
        invariant
            i <= c.len(),
            v@ == base + c@.take(i as int),
        decreases c.len() - i,
    {
        v.push(c[i]);
        i += 1;
        assert(v@ =~= base + c@.take(i as int));
    }
    assert(c@.take(c.len() as int) =~= c@);
}

impl SshCmd {
    pub closed spec fn user(&self) -> Seq<char> {
        self.user@
    }

    pub closed spec fn target(&self) -> Seq<char> {
        self.target@
    }

    pub closed spec fn options(&self) -> Seq<char> {
        self.options@
    }

    pub fn new(user: &str, target: &str, options: &str) -> (r: Self)
        ensures
            r.user() == user@,
            r.target() == target@,
            r.options() == options@,
    {
        SshCmd { user: user.to_owned(), target: target.to_owned(), options: options.to_owned() }
    }

    /// The command line that runs `cmd` on the remote host.
    pub fn get_full_cmd(&self, cmd: &str) -> (r: String)
        ensures
            r@ == full_command(self.options(), self.user(), self.target(), cmd@),
    {
        let mut v: Vec<char> = Vec::new();
        v.push('s');
        v.push('s');
        v.push('h');
        v.push(' ');
        push_str(&mut v, self.options.as_str());
        v.push(' ');
        push_str(&mut v, self.user.as_str());
        v.push('@');
        push_str(&mut v, self.target.as_str());
        v.push(' ');
        v.push('-');
        v.push('-');
        v.push(' ');
        push_str(&mut v, cmd);
        assert(v@ =~= full_command(self.options(), self.user(), self.target(), cmd@));
        string_from_chars(&v)
    }

    /// The program and its arguments for running `cmd` remotely: the words of the
    /// full command line.
    pub fn command_words(&self, cmd: &str) -> (r: Vec<String>)
        ensures
            r@.map_values(|s: String| s@) == tokens(
                full_command(self.options(), self.user(), self.target(), cmd@),
            ),
    {
        let line = self.get_full_cmd(cmd);
        let chars = collect_chars(line.as_str());
        let words = split_words(&chars);
        let mut out: Vec<String> = Vec::new();
        let mut i: usize = 0;
        while i < words.len()
            invariant
                i <= words.len(),
                out@.map_values(|s: String| s@) == views(words@).take(i as int),
            decreases words.len() - i,
        {
            let w = string_from_chars(&words[i]);
            let ghost before = out@;
            out.push(w);
            assert(out@.map_values(|s: String| s@) =~= before.map_values(|s: String| s@).push(
                w@,
            ));
            i += 1;
            assert(out@.map_values(|s: String| s@) =~= views(words@).take(i as int));
        }
        assert(views(words@).take(i as int) =~= views(words@));
        out
    }
}

/// The remote command that lists the directory `path`.
pub fn list_command(path: &str) -> (r: String)
    ensures
        r@ == listing_command(path@),
{
    let p = collect_chars(path);
    let mut v: Vec<char> = Vec::new();
    v.push('l');
    v.push('s');
    v.push(' ');
    v.push('-');
    v.push('l');
    v.push(' ');
    push_str(&mut v, path);
    if !(p.len() > 0 && p[p.len() - 1] == '/') {
        v.push('/');
    }
    assert(v@ =~= listing_command(path@));
    string_from_chars(&v)
}

/// The remote command that prints the file `path`.
pub fn cat_command(path: &str) -> (r: String)
    ensures
        r@ == file_command(path@),
{
    let mut v: Vec<char> = Vec::new();
    v.push('c');
    v.push('a');
    v.push('t');
    v.push(' ');
    push_str(&mut v, path);
    assert(v@ =~= file_command(path@));
    string_from_chars(&v)
}

/// The rows of a listing command's output: `None` when it wrote to its error
/// stream or its output is not UTF-8 text, else the rows of that text, with clock
/// times in `current_year`.
pub fn listing_from_output(stdout: Vec<u8>, stderr: &Vec<u8>, current_year: u32) -> (r: Option<
    Vec<FileMeta>,
>)
    ensures
        stderr@.len() > 0 || !vstd::utf8::valid_utf8(stdout@) ==> r is None,
        stderr@.len() == 0 && vstd::utf8::valid_utf8(stdout@) ==> r is Some && rows_view(r->0@)
            == parse_listing(vstd::utf8::decode_utf8(stdout@), current_year as int),
{
    if stderr.len() > 0 {
        return None;
    }
    match decode_utf8_text(stdout) {
        Some(text) => Some(parse_long_list_in_year(text.as_str(), current_year)),
        None => None,
    }
}

} // verus!
