//! Line search with highlighting: finds the lines of a text that hold a query,
//! with or without regard to case, and marks the query in each line found.

pub mod config;
pub mod highlight;
pub mod matching;
pub mod place;
pub mod text;

pub use crate::config::{ArgumentError, Config};
pub use crate::highlight::{render, render_case_insensitive};
pub use crate::matching::{search, search_case_insensitive};

use crate::highlight::{rendered, rendered_in_any_case};
use crate::matching::{matching_lines, matching_lines_in_any_case};
use crate::text::texts_of;
use vstd::prelude::*;

verus! {

/// What a run prints for `query` on `text`, line by line: the lines found, in
/// the order of the text, each with the query marked; found and marked with
/// regard to case or without, as `case_sensitive` says.
pub open spec fn shown_lines(query: Seq<char>, case_sensitive: bool, text: Seq<char>) -> Seq<
    Seq<char>,
> {
    if case_sensitive {
        matching_lines(query, text).map_values(|line: Seq<char>| rendered(line, query))
    } else {
        matching_lines_in_any_case(query, text).map_values(
            |line: Seq<char>| rendered_in_any_case(line, query),
        )
    }
}

/// The lines to print for the configuration `config` on `contents`, the text of
/// the file that it names: one for each line found, in order.
pub fn run(config: &Config, contents: &str) -> (shown: Vec<String>)
    ensures
        texts_of(shown@) == shown_lines(config.query@, config.case_sensitive, contents@),
{
    let query: &str = config.query.as_str();
    let found: Vec<&str> = if config.case_sensitive {
        search(query, contents)
    } else {
        search_case_insensitive(query, contents)
    };
    let mut shown: Vec<String> = Vec::new();
    let mut k: usize = 0;
    while k < found.len()
        invariant
            k <= found.len(),
            query@ == config.query@,
            texts_of(shown@) =~= shown_lines(
                config.query@,
                config.case_sensitive,
                contents@,
            ).take(k as int),
            texts_of(found@) == if config.case_sensitive {
                matching_lines(config.query@, contents@)
            } else {
                matching_lines_in_any_case(config.query@, contents@)
            },
        decreases found.len() - k,
    {
        let ghost before = shown@;
        let line: &str = found[k];
        assert(texts_of(found@)[k as int] == line@);
        let marked: String = if config.case_sensitive {
            render(line, query)
        } else {
            render_case_insensitive(line, query)
        };
        shown.push(marked);
        assert(texts_of(shown@) =~= texts_of(before).push(marked@));
        k += 1;
    }
    shown
}

} // verus!
