//! The search itself: the lines of a text that contain a query, with or
//! without regard to letter case.

use crate::lines::{
    after_first_line, first_line, lemma_lines_of_ascii_are_ascii, lines_of, split_first_line,
};
use crate::lowercase::{lemma_ascii_lowercase_keeps_occurrence, lowercase_of, to_lowercase};
use crate::substring::{contains, occurs_in};
use vstd::prelude::*;
use vstd::utf8::is_ascii_chars;

verus! {

/// What is looked for in the lines when searching for `query`: the query as
/// it is written where letter case counts, its lower-case form where not.
pub open spec fn needle_for(query: Seq<char>, case_sensitive: bool) -> Seq<char> {
    if case_sensitive {
        query
    } else {
        lowercase_of(query)
    }
}

/// Whether `line` matches `needle`. Where letter case counts the line has to
/// contain the needle as the line is written; where not, the lower-case form
/// of the line has to contain it.
pub open spec fn line_matches(needle: Seq<char>, line: Seq<char>, case_sensitive: bool) -> bool {
    occurs_in(
        needle,
        if case_sensitive {
            line
        } else {
            lowercase_of(line)
        },
    )
}

/// The lines of `contents` that match `needle`, as they are written, in the
/// order in which they stand in `contents`, each as often as it stands there.
pub open spec fn matching_lines(needle: Seq<char>, contents: Seq<char>, case_sensitive: bool) -> Seq<
    Seq<char>,
> {
    lines_of(contents).filter(|line: Seq<char>| line_matches(needle, line, case_sensitive))
}

/// The empty text has no line to match anything.
proof fn lemma_matching_lines_of_nothing(needle: Seq<char>, case_sensitive: bool)
    ensures
        matching_lines(needle, Seq::<char>::empty(), case_sensitive) == Seq::<Seq<char>>::empty(),
{
    reveal_with_fuel(Seq::filter, 1);
    assert(lines_of(Seq::<char>::empty()) =~= Seq::<Seq<char>>::empty());
}

/// The matching lines of a text are its first line, if that matches, and then
/// the matching lines of what follows it.
proof fn lemma_matching_lines_step(needle: Seq<char>, contents: Seq<char>, case_sensitive: bool)
    requires
        contents.len() > 0,
    ensures
        matching_lines(needle, contents, case_sensitive) == if line_matches(
            needle,
            first_line(contents),
            case_sensitive,
        ) {
            seq![first_line(contents)] + matching_lines(
                needle,
                after_first_line(contents),
                case_sensitive,
            )
        } else {
            matching_lines(needle, after_first_line(contents), case_sensitive)
        },
{
    let wanted = |line: Seq<char>| line_matches(needle, line, case_sensitive);
    let first = seq![first_line(contents)];
    let others = lines_of(after_first_line(contents));
    Seq::filter_distributes_over_add(first, others, wanted);
    reveal_with_fuel(Seq::filter, 2);
    assert(first.drop_last() =~= Seq::<Seq<char>>::empty());
    if wanted(first_line(contents)) {
        assert(first.filter(wanted) =~= first);
    } else {
        assert(first.filter(wanted) =~= Seq::<Seq<char>>::empty());
        assert(first.filter(wanted) + others.filter(wanted) =~= others.filter(wanted));
    }
}

/// The lines of `contents` that match `needle`, in order, as slices of
/// `contents`: with `case_sensitive` the lines that contain the needle as they
/// are written, without it the lines whose lower-case form contains it. The
/// needle is taken as it is given either way.
pub fn select_lines<'a>(needle: &str, contents: &'a str, case_sensitive: bool) -> (found: Vec<
    &'a str,
>)
    ensures
        found.deep_view() == matching_lines(needle@, contents@, case_sensitive),
{
    let mut found: Vec<&'a str> = Vec::new();
    let mut rest: &'a str = contents;
    assert(found.deep_view() + matching_lines(needle@, rest@, case_sensitive) =~= matching_lines(
        needle@,
        contents@,
        case_sensitive,
    ));
    loop
        invariant
            matching_lines(needle@, contents@, case_sensitive) == found.deep_view()
                + matching_lines(needle@, rest@, case_sensitive),
        ensures
            found.deep_view() == matching_lines(needle@, contents@, case_sensitive),
        decreases rest@.len(),
    {
        match split_first_line(rest) {
            None => {
                proof {
                    lemma_matching_lines_of_nothing(needle@, case_sensitive);
                }
                assert(found.deep_view() + Seq::<Seq<char>>::empty() =~= found.deep_view());
                break ;
            },
            Some((line, next)) => {
                let hit = if case_sensitive {
                    contains(line, needle)
                } else {
                    let lowered = to_lowercase(line);
                    contains(lowered.as_str(), needle)
                };
                proof {
                    lemma_matching_lines_step(needle@, rest@, case_sensitive);
                }
                let ghost before = found.deep_view();
                if hit {
                    found.push(line);
                    assert(found.deep_view() =~= before + seq![line@]);
                    assert(found.deep_view() + matching_lines(needle@, next@, case_sensitive)
                        =~= before + matching_lines(needle@, rest@, case_sensitive));
                }
                rest = next;
            },
        }
    }
    found
}

/// The lines of `contents` that contain `query`, in order, as slices of
/// `contents`. Letter case counts.
pub fn search<'a>(query: &str, contents: &'a str) -> (found: Vec<&'a str>)
    ensures
        found.deep_view() == matching_lines(query@, contents@, true),
{
    select_lines(query, contents, true)
}

/// The lines of `contents` whose lower-case form contains the lower-case form
/// of `query`, in order, as slices of `contents`.
pub fn search_case_insensitive<'a>(query: &str, contents: &'a str) -> (found: Vec<&'a str>)
    ensures
        found.deep_view() == matching_lines(lowercase_of(query@), contents@, false),
{
    let needle = to_lowercase(query);
    select_lines(needle.as_str(), contents, false)
}

/// A search reports nothing but matching lines of the text, it reports every
/// matching line, and it reports them in the order of the text: wherever the
/// lines of the text are cut in two, the matches among the earlier lines come
/// first, and the matches among the later lines follow.
pub proof fn lemma_matching_lines_sound_and_complete(
    needle: Seq<char>,
    contents: Seq<char>,
    case_sensitive: bool,
)
    ensures
        forall|i: int|
            0 <= i < matching_lines(needle, contents, case_sensitive).len() ==> {
                let line = #[trigger] matching_lines(needle, contents, case_sensitive)[i];
                line_matches(needle, line, case_sensitive) && lines_of(contents).contains(line)
            },
        forall|j: int|
            0 <= j < lines_of(contents).len() && line_matches(
                needle,
                lines_of(contents)[j],
                case_sensitive,
            ) ==> matching_lines(needle, contents, case_sensitive).contains(
                #[trigger] lines_of(contents)[j],
            ),
        forall|k: int|
            0 <= k <= lines_of(contents).len() ==> matching_lines(needle, contents, case_sensitive)
                == (#[trigger] lines_of(contents).take(k)).filter(
                |line: Seq<char>| line_matches(needle, line, case_sensitive),
            ) + lines_of(contents).skip(k).filter(
                |line: Seq<char>| line_matches(needle, line, case_sensitive),
            ),
{
    let all = lines_of(contents);
    let wanted = |line: Seq<char>| line_matches(needle, line, case_sensitive);
    let found = all.filter(wanted);
    assert forall|i: int| 0 <= i < found.len() implies wanted(#[trigger] found[i]) && all.contains(
        found[i],
    ) by {
        all.lemma_filter_pred(wanted, i);
        assert(found.contains(found[i]));
        all.lemma_filter_contains_rev(wanted, found[i]);
    }
    assert forall|j: int| 0 <= j < all.len() && wanted(all[j]) implies found.contains(
        #[trigger] all[j],
    ) by {
        all.lemma_filter_contains(wanted, j);
    }
    assert forall|k: int| 0 <= k <= all.len() implies found == (#[trigger] all.take(k)).filter(
        wanted,
    ) + all.skip(k).filter(wanted) by {
        assert(all =~= all.take(k) + all.skip(k));
        Seq::filter_distributes_over_add(all.take(k), all.skip(k), wanted);
    }
}

/// Filtering by a condition gives the same as filtering first by a weaker one.
proof fn lemma_filter_after_wider_filter<A>(
    items: Seq<A>,
    narrow: spec_fn(A) -> bool,
    wide: spec_fn(A) -> bool,
)
    requires
        forall|i: int| 0 <= i < items.len() && narrow(#[trigger] items[i]) ==> wide(items[i]),
    ensures
        items.filter(narrow) == items.filter(wide).filter(narrow),
    decreases items.len(),
{
    reveal_with_fuel(Seq::filter, 2);
    if items.len() > 0 {
        let front = items.drop_last();
        let last = items.last();
        assert forall|i: int| 0 <= i < front.len() && narrow(#[trigger] front[i]) implies wide(
            front[i],
        ) by {
            assert(front[i] == items[i]);
        }
        lemma_filter_after_wider_filter(front, narrow, wide);
        if wide(last) {
            let kept = front.filter(wide);
            assert(kept.push(last).drop_last() =~= kept);
        }
    }
}

/// Lower-casing keeps the query in the line: where the line contains the
/// query, the lower-case form of the line contains the lower-case form of the
/// query.
pub open spec fn lowercase_keeps_match(query: Seq<char>, line: Seq<char>) -> bool {
    occurs_in(query, line) ==> occurs_in(lowercase_of(query), lowercase_of(line))
}

/// Where lower-casing keeps the query in every line of the text, the search
/// that ignores letter case reports every line that the search that heeds it
/// reports: the lines of the second are those lines of the first that contain
/// the query as it is written, in the same order.
///
/// Lower-casing does not keep every match: by the rules of Unicode the form of
/// a letter may depend on its neighbours, which a line has and a query lacks.
pub proof fn lemma_ignoring_case_reports_no_less(query: Seq<char>, contents: Seq<char>)
    requires
        forall|i: int|
            0 <= i < lines_of(contents).len() ==> lowercase_keeps_match(
                query,
                #[trigger] lines_of(contents)[i],
            ),
    ensures
        matching_lines(query, contents, true) == matching_lines(
            lowercase_of(query),
            contents,
            false,
        ).filter(|line: Seq<char>| line_matches(query, line, true)),
        forall|i: int|
            0 <= i < matching_lines(query, contents, true).len() ==> matching_lines(
                lowercase_of(query),
                contents,
                false,
            ).contains(#[trigger] matching_lines(query, contents, true)[i]),
{
    let all = lines_of(contents);
    let exact = |line: Seq<char>| line_matches(query, line, true);
    let folded = |line: Seq<char>| line_matches(lowercase_of(query), line, false);
    assert forall|i: int| 0 <= i < all.len() && exact(#[trigger] all[i]) implies folded(all[i]) by {
        assert(lowercase_keeps_match(query, all[i]));
    }
    lemma_filter_after_wider_filter(all, exact, folded);
    let narrow = all.filter(exact);
    let wide = all.filter(folded);
    assert forall|i: int| 0 <= i < narrow.len() implies wide.contains(#[trigger] narrow[i]) by {
        assert(narrow.contains(narrow[i]));
        wide.lemma_filter_contains_rev(exact, narrow[i]);
    }
}

/// In a text of characters below U+0080, searched for a query of such
/// characters, the search that ignores letter case reports every line that
/// the search that heeds it reports, in the same order.
pub proof fn lemma_ignoring_case_reports_no_less_in_ascii(query: Seq<char>, contents: Seq<char>)
    requires
        is_ascii_chars(query),
        is_ascii_chars(contents),
    ensures
        matching_lines(query, contents, true) == matching_lines(
            lowercase_of(query),
            contents,
            false,
        ).filter(|line: Seq<char>| line_matches(query, line, true)),
        forall|i: int|
            0 <= i < matching_lines(query, contents, true).len() ==> matching_lines(
                lowercase_of(query),
                contents,
                false,
            ).contains(#[trigger] matching_lines(query, contents, true)[i]),
{
    lemma_lines_of_ascii_are_ascii(contents);
    assert forall|i: int| 0 <= i < lines_of(contents).len() implies lowercase_keeps_match(
        query,
        #[trigger] lines_of(contents)[i],
    ) by {
        if occurs_in(query, lines_of(contents)[i]) {
            lemma_ascii_lowercase_keeps_occurrence(query, lines_of(contents)[i]);
        }
    }
    lemma_ignoring_case_reports_no_less(query, contents);
}

} // verus!
