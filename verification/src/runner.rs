//! One run of the search over the contents of a file: what to print.

use crate::config::Config;
use crate::search::{matching_lines, needle_for, search, search_case_insensitive};
use vstd::prelude::*;
use vstd::string::*;

verus! {

/// What a run has to show.
#[derive(Debug)]
pub enum Report<'a> {
    /// The lines that matched, in order; there is at least one.
    Matches(Vec<&'a str>),
    /// No line matched. This is no failure. `notice` holds the lines that
    /// tell the user so.
    NoMatch { notice: Vec<String> },
}

/// The lines that tell the user that nothing matched: the first names the
/// query and the file, the second says whether letter case counted.
pub open spec fn no_match_notice(query: Seq<char>, filename: Seq<char>, case_sensitive: bool) -> Seq<
    Seq<char>,
> {
    seq![
        "Query '"@ + query + "' not found in "@ + filename,
        "Search case sensitive: "@ + if case_sensitive {
            "true"@
        } else {
            "false"@
        },
    ]
}

/// Writes the notice for a search that matched nothing.
fn write_no_match_notice(config: &Config) -> (notice: Vec<String>)
    ensures
        notice.deep_view() == no_match_notice(
            config.query@,
            config.filename@,
            config.case_sensitive,
        ),
{
    let mut first = String::from_str("Query '");
    first.append(config.query.as_str());
    first.append("' not found in ");
    first.append(config.filename.as_str());
    let mut second = String::from_str("Search case sensitive: ");
    second.append(
        if config.case_sensitive {
            "true"
        } else {
            "false"
        },
    );
    let mut notice: Vec<String> = Vec::new();
    notice.push(first);
    notice.push(second);
    assert(notice.deep_view() =~= no_match_notice(
        config.query@,
        config.filename@,
        config.case_sensitive,
    ));
    notice
}

/// Searches `contents`, the text of the file that `config` names, for the
/// query of `config`, with or without regard to letter case as `config` says,
/// and reports the matching lines, or that there are none.
pub fn run<'a>(config: &Config, contents: &'a str) -> (report: Report<'a>)
    ensures
        ({
            let found = matching_lines(
                needle_for(config.query@, config.case_sensitive),
                contents@,
                config.case_sensitive,
            );
            match report {
                Report::Matches(lines) => found.len() > 0 && lines.deep_view() == found,
                Report::NoMatch { notice } => found.len() == 0 && notice.deep_view()
                    == no_match_notice(config.query@, config.filename@, config.case_sensitive),
            }
        }),
{
    let found = if config.case_sensitive {
        search(config.query.as_str(), contents)
    } else {
        search_case_insensitive(config.query.as_str(), contents)
    };
    if found.len() < 1 {
        Report::NoMatch { notice: write_no_match_notice(config) }
    } else {
        Report::Matches(found)
    }
}

} // verus!
