//! Input sources, and the rules for which lines of input are hosts to probe.

use vstd::prelude::*;
use crate::text::{chars_of, string_from_chars, trim, trim_chars};

verus! {

/// `std::path::PathBuf`, carried through as an opaque value.
#[verifier::external_type_specification]
#[verifier::external_body]
pub struct ExPathBuf(std::path::PathBuf);

/// Where hosts come from.
pub enum Source {
    /// Read one host per line from a file.
    File(std::path::PathBuf),
    /// Read one host per line from stdin.
    Stdin,
    /// Block-pop hosts from a Redis list (`BRPOP`), streaming forever.
    Redis { url: String, queue: String },
}

impl Source {
    /// The source the command line selects: a Redis URL wins, then a host list file, else stdin.
    pub fn from_args(redis: Option<String>, queue: String, list: Option<std::path::PathBuf>) -> (s: Source)
        ensures
            match redis {
                Some(url) => s == (Source::Redis { url, queue }),
                None => match list {
                    Some(path) => s == Source::File(path),
                    None => s == Source::Stdin,
                },
            },
    {
        match redis {
            Some(url) => Source::Redis { url, queue },
            None => match list {
                Some(path) => Source::File(path),
                None => Source::Stdin,
            },
        }
    }
}

/// The host a line of a host list names: the trimmed line, unless it is empty or a
/// `#` comment.
pub open spec fn line_host(line: Seq<char>) -> Option<Seq<char>> {
    let t = trim(line);
    if t.len() == 0 || t[0] == '#' {
        None
    } else {
        Some(t)
    }
}

/// The host an item popped from the queue names: the trimmed item, unless it is empty.
pub open spec fn queue_host(item: Seq<char>) -> Option<Seq<char>> {
    let t = trim(item);
    if t.len() == 0 {
        None
    } else {
        Some(t)
    }
}

/// The host on one line of a file or stdin; blank lines and `#` comments give none.
pub fn host_from_line(line: &str) -> (r: Option<String>)
    ensures
        match r {
            Some(h) => line_host(line@) == Some(h@),
            None => line_host(line@) is None,
        },
{
    let t = trim_chars(chars_of(line).as_slice());
    if t.len() == 0 || t[0] == '#' {
        None
    } else {
        Some(string_from_chars(t.as_slice()))
    }
}

/// The host in one item popped from the Redis queue; blank items give none.
pub fn host_from_queue_item(item: &str) -> (r: Option<String>)
    ensures
        match r {
            Some(h) => queue_host(item@) == Some(h@),
            None => queue_host(item@) is None,
        },
{
    let t = trim_chars(chars_of(item).as_slice());
    if t.len() == 0 {
        None
    } else {
        Some(string_from_chars(t.as_slice()))
    }
}

} // verus!
