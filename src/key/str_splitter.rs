use vstd::prelude::*;

use super::IntoEdge;
use crate::edge::{views, Edge};

verus! {

/// `s` with every leading copy of `pat` removed; unchanged for an empty `pat`.
pub open spec fn trim_start_of(s: Seq<char>, pat: Seq<char>) -> Seq<char>
    decreases s.len(),
{
    if pat.len() > 0 && pat.len() <= s.len() && s.take(pat.len() as int) == pat {
        trim_start_of(s.skip(pat.len() as int), pat)
    } else {
        s
    }
}

/// `s` with every trailing copy of `pat` removed; unchanged for an empty `pat`.
pub open spec fn trim_end_of(s: Seq<char>, pat: Seq<char>) -> Seq<char>
    decreases s.len(),
{
    if pat.len() > 0 && pat.len() <= s.len() && s.skip(s.len() - pat.len()) == pat {
        trim_end_of(s.take(s.len() - pat.len()), pat)
    } else {
        s
    }
}

/// The pieces of `s` between the non-overlapping occurrences of `pat`,
/// found from the left. An empty `pat` occurs before and after every
/// character.
pub open spec fn split_of(s: Seq<char>, pat: Seq<char>) -> Seq<Seq<char>>
    decreases s.len(),
{
    if pat.len() == 0 {
        seq![Seq::<char>::empty()] + s.map_values(|c: char| seq![c]) + seq![
            Seq::<char>::empty(),
        ]
    } else if s.len() == 0 {
        seq![Seq::<char>::empty()]
    } else if pat.len() <= s.len() && s.take(pat.len() as int) == pat {
        seq![Seq::<char>::empty()] + split_of(s.skip(pat.len() as int), pat)
    } else {
        let rest = split_of(s.drop_first(), pat);
        rest.update(0, seq![s[0]] + rest[0])
    }
}

/// Relies on str::trim_start_matches with a string pattern: it removes the
/// prefix `pat` as long as the rest starts with it.
#[verifier::external_body]
fn trim_start<'a>(s: &'a str, pat: &str) -> (r: &'a str)
    ensures
        r@ == trim_start_of(s@, pat@),
{
    s.trim_start_matches(pat)
}

/// Relies on str::trim_end_matches with a string pattern: it removes the
/// suffix `pat` as long as the rest ends with it.
#[verifier::external_body]
fn trim_end<'a>(s: &'a str, pat: &str) -> (r: &'a str)
    ensures
        r@ == trim_end_of(s@, pat@),
{
    s.trim_end_matches(pat)
}

/// Relies on str::split with a string pattern: the substrings between the
/// matches of `pat`, in order, each copied into a `String`.
#[verifier::external_body]
fn split(s: &str, pat: &str) -> (r: Vec<String>)
    ensures
        views(r@) == split_of(s@, pat@),
{
    s.split(pat).map(String::from).collect()
}

/// Splits a key on a delimiter, after trimming the delimiter from both ends.
#[derive(Debug)]
pub struct StrSplitter {
    delimiter: String,
}

impl StrSplitter {
    pub fn new(delimiter: &str) -> (r: Self)
        ensures
            r.delimiter() == delimiter@,
    {
        StrSplitter { delimiter: delimiter.to_string() }
    }

    /// The delimiter that keys are split on.
    pub closed spec fn delimiter(&self) -> Seq<char> {
        self.delimiter@
    }
}

impl Default for StrSplitter {
    /// Splits on `/`.
    fn default() -> (r: Self)
        ensures
            r.delimiter() == seq!['/'],
    {
        proof {
            reveal_strlit("/");
        }
        StrSplitter::new("/")
    }
}

impl IntoEdge<String> for StrSplitter {
    open spec fn encode(&self, key: Seq<char>) -> Seq<Seq<char>> {
        split_of(
            trim_end_of(trim_start_of(key, self.delimiter()), self.delimiter()),
            self.delimiter(),
        )
    }

    fn segment(&self, key: &str) -> (r: Edge<String>) {
        let d = self.delimiter.as_str();
        let trimmed = trim_end(trim_start(key, d), d);
        Edge::from_vec(split(trimmed, d))
    }
}

} // verus!
