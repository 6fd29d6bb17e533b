//! Properties of a search and of a run that span several steps or hold of
//! every step.

use vstd::prelude::*;
use crate::cli::{
    invocation, is_flag, output_text, report, run_step, run_wanted, unknown_flag_message, ExitView,
    RunView, RunWanted,
};
use crate::matching::{line_matches, matching_text_lines, selects};
use crate::order::{distinct_keys, law_order_ignores_listing_order};
use crate::search::{
    by_path, file_outcome, listed, listing_failure, prefixed, read_view, settle, stage_wf, start,
    step, wanted, Entry, Reply, SearchView, Stage, Wanted,
};
use crate::text::{
    law_lines_hold_no_line_feed, lemma_lines_concat, lemma_lines_of_one, lemma_pieces_after_sep,
    lemma_pieces_append_plain, pieces, strip_last,
    text_lines,
};

verus! {

/// Whether a reply answers what was asked: metadata for metadata, contents
/// for a file, a listing for a directory.
pub open spec fn answers(w: Wanted, reply: Reply) -> bool {
    match w {
        Wanted::Metadata(_) => reply is Metadata,
        Wanted::ReadFile(_) => reply is Contents,
        Wanted::ReadDir(_) => reply is Listing,
        Wanted::Finished(_) => false,
    }
}

/// A search asks first for the metadata of the path it searches.
pub proof fn law_search_starts_with_metadata(pattern: Seq<char>, root: Seq<char>, ignore_case: bool)
    ensures
        wanted(start(pattern, root, ignore_case)) == Wanted::Metadata(root),
{
}

/// A path that is not a directory is searched as a file: its text is asked
/// for, and what the search then gives is exactly what `search_file` gives
/// for what reading it gave.
pub proof fn law_file_path_is_searched_as_file(
    pattern: Seq<char>,
    root: Seq<char>,
    ignore_case: bool,
    read: Result<String, String>,
)
    ensures
        ({
            let s1 = step(start(pattern, root, ignore_case), Reply::Metadata(Ok(false)));
            let s2 = step(s1, Reply::Contents(read));
            &&& wanted(s1) == Wanted::ReadFile(root)
            &&& wanted(s2) == Wanted::Finished(
                file_outcome(pattern, root, read_view(read), ignore_case),
            )
        }),
{
}

/// A directory is listed first, from the path that was searched.
pub proof fn law_directory_is_listed(pattern: Seq<char>, root: Seq<char>, ignore_case: bool)
    ensures
        wanted(step(start(pattern, root, ignore_case), Reply::Metadata(Ok(true))))
            == Wanted::ReadDir(root),
{
}

/// A path whose metadata cannot be read ends the search with that failure,
/// prefixed with the path.
pub proof fn law_missing_path_fails(
    pattern: Seq<char>,
    root: Seq<char>,
    ignore_case: bool,
    reason: String,
)
    ensures
        wanted(step(start(pattern, root, ignore_case), Reply::Metadata(Err(reason))))
            == Wanted::Finished(Err(root + seq![':', ' '] + reason@)),
{
}

/// Once finished, a search stays as it is, whatever reply comes.
pub proof fn law_finished_search_stays(v: SearchView, reply: Reply)
    requires
        v.stage is Done,
    ensures
        step(v, reply) == v,
{
}

/// A reply to another operation than the one asked for changes nothing.
pub proof fn law_unasked_reply_changes_nothing(v: SearchView, reply: Reply)
    requires
        !answers(wanted(v), reply),
    ensures
        step(v, reply) == v,
{
}

/// A step keeps what is searched for, where, and how.
pub proof fn law_step_keeps_the_query(v: SearchView, reply: Reply)
    ensures
        step(v, reply).pattern == v.pattern,
        step(v, reply).root == v.root,
        step(v, reply).ignore_case == v.ignore_case,
{
}

proof fn lemma_settle_wf(pending: Seq<Entry>, files: Seq<Seq<char>>)
    ensures
        stage_wf(settle(pending, files)),
    decreases pending.len(),
{
    if pending.len() > 0 {
        lemma_settle_wf(pending.drop_last(), files);
        lemma_settle_wf(pending.drop_last(), files.push(pending.last().path@));
    }
}

/// Every step leaves a search that reads, if it reads, a file that was
/// found.
pub proof fn law_step_keeps_reading_in_bounds(v: SearchView, reply: Reply)
    requires
        stage_wf(v.stage),
    ensures
        stage_wf(step(v, reply).stage),
{
    match v.stage {
        Stage::Walk { dir, pending, files } => {
            match reply {
                Reply::Listing(Ok(list)) => {
                    lemma_settle_wf(
                        pending + crate::order::sort_by_key(
                            crate::search::listed(list@),
                            crate::search::by_path(),
                        ).reverse(),
                        files,
                    );
                },
                _ => {},
            }
        },
        _ => {},
    }
}

/// Searching the text of a file found under a directory adds that file's
/// matching lines, in order, each written as the file's path, a colon and
/// the line; each such line is a line of that file's text that the pattern
/// selects: every match can be traced back to its file.
pub proof fn law_matches_are_traced_to_their_file(v: SearchView, text: String)
    requires
        v.stage is Read,
        stage_wf(v.stage),
    ensures
        ({
            let files = v.stage->Read_files;
            let next = v.stage->Read_next;
            let found = v.stage->Read_found;
            let lines = matching_text_lines(text@, v.pattern, v.ignore_case);
            &&& step(v, Reply::Contents(Ok(text))).stage == crate::search::after_read(
                files,
                next + 1,
                found + prefixed(files[next], lines),
            )
            &&& forall|k: int|
                0 <= k < lines.len() ==> prefixed(files[next], lines)[k] == files[next] + seq![':']
                    + #[trigger] lines[k]
            &&& forall|k: int|
                0 <= k < lines.len() ==> text_lines(text@).contains(#[trigger] lines[k])
                    && line_matches(lines[k], v.pattern, v.ignore_case)
        }),
{
    broadcast use vstd::seq_lib::group_filter_ensures;

    let files = v.stage->Read_files;
    let next = v.stage->Read_next;
    let found = v.stage->Read_found;
    let sel = selects(v.pattern, v.ignore_case);
    let lines = matching_text_lines(text@, v.pattern, v.ignore_case);
    assert(v.stage == Stage::Read { files, next, found });
    assert forall|k: int| 0 <= k < lines.len() implies text_lines(text@).contains(
        #[trigger] lines[k],
    ) && line_matches(lines[k], v.pattern, v.ignore_case) by {
        assert(lines.contains(lines[k]));
        text_lines(text@).lemma_filter_contains_rev(sel, lines[k]);
        assert(sel(lines[k]));
    }
}

/// The exit code follows grep's convention: 0 when a line matched, 1 when
/// none did, 2 when the search failed; standard error is written only
/// then.
pub proof fn law_exit_code(r: Result<Seq<Seq<char>>, Seq<char>>)
    ensures
        (report(r).code == 0) == (r is Ok && r->Ok_0.len() > 0),
        (report(r).code == 1) == (r is Ok && r->Ok_0.len() == 0),
        (report(r).code == 2) == (r is Err),
        (report(r).stderr.len() > 0) == (r is Err),
{
    if let Err(reason) = r {
        reveal_strlit("rgrep: ");
    }
}

/// Arguments that the tool refuses end the run with exit code 2 and
/// nothing on standard output.
pub proof fn law_refused_arguments_exit_with_two(args: Seq<Seq<char>>)
    requires
        invocation(args) is Over,
    ensures
        invocation(args)->Over_0.code == 2,
        invocation(args)->Over_0.stdout.len() == 0,
{
}

/// `-i` first makes the search of the next two arguments ignore ASCII case.
pub proof fn law_i_flag_ignores_case(pattern: Seq<char>, path: Seq<char>)
    requires
        !is_flag(pattern),
    ensures
        invocation(seq!["-i"@, pattern, path]) == RunView::Searching(start(pattern, path, true)),
{
    let args = seq!["-i"@, pattern, path];
    assert(args.drop_first() =~= seq![pattern, path]);
}

/// Without a flag, the first argument is the pattern, searched for with
/// case taken into account.
pub proof fn law_pattern_first_is_case_sensitive(pattern: Seq<char>, path: Seq<char>)
    requires
        !is_flag(pattern),
    ensures
        invocation(seq![pattern, path]) == RunView::Searching(start(pattern, path, false)),
{
    reveal_strlit("-i");
    let args = seq![pattern, path];
    assert(args[0] == pattern);
    if pattern == "-i"@ {
        assert(pattern[0] == '-');
    }
}

/// An argument that starts with a dash is never taken for the pattern: as
/// the first argument (unless it is `-i`) or as the one after a leading
/// `-i`, it is refused by name, with exit code 2.
pub proof fn law_dash_argument_is_refused_by_name(args: Seq<Seq<char>>)
    requires
        args.len() > 0,
        ({
            let k: int = if args[0] == "-i"@ {
                1
            } else {
                0
            };
            k < args.len() && is_flag(args[k])
        }),
    ensures
        ({
            let k: int = if args[0] == "-i"@ {
                1
            } else {
                0
            };
            invocation(args) == RunView::Over(
                ExitView { code: 2, stdout: Seq::empty(), stderr: unknown_flag_message(args[k]) },
            )
        }),
{
    if args[0] == "-i"@ {
        assert(args.drop_first()[0] == args[1]);
    }
}

/// No two entries of a listing failed to be read.
pub open spec fn at_most_one_failure(list: Seq<Result<Entry, String>>) -> bool {
    forall|i: int, j: int| 0 <= i < j < list.len() ==> !(list[i] is Err && list[j] is Err)
}

proof fn lemma_no_failure(list: Seq<Result<Entry, String>>)
    requires
        forall|k: int| 0 <= k < list.len() ==> list[k] is Ok,
    ensures
        listing_failure(list) is None,
    decreases list.len(),
{
    if list.len() > 0 {
        lemma_no_failure(list.drop_first());
    }
}

proof fn lemma_first_failure(list: Seq<Result<Entry, String>>, i: int)
    requires
        0 <= i < list.len(),
        list[i] is Err,
        forall|k: int| 0 <= k < i ==> list[k] is Ok,
    ensures
        listing_failure(list) == Some(list[i]->Err_0@),
    decreases i,
{
    if i > 0 {
        lemma_first_failure(list.drop_first(), i - 1);
    }
}

proof fn lemma_listed_counts(list: Seq<Result<Entry, String>>)
    ensures
        forall|e: Entry| #[trigger]
            listed(list).to_multiset().count(e) == list.to_multiset().count(Ok(e)),
    decreases list.len(),
{
    broadcast use vstd::seq_lib::group_to_multiset_ensures;
    broadcast use vstd::multiset::group_multiset_axioms;

    if list.len() == 0 {
        assert(listed(list) =~= Seq::<Entry>::empty());
        assert(list =~= Seq::<Result<Entry, String>>::empty());
    } else {
        let l0 = list.drop_last();
        lemma_listed_counts(l0);
        assert(l0.push(list.last()) =~= list);
        assert(list.to_multiset() == l0.to_multiset().insert(list.last()));
        match list.last() {
            Ok(x) => {
                assert(listed(list) == listed(l0).push(x));
                assert(listed(list).to_multiset() == listed(l0).to_multiset().insert(x));
            },
            Err(_) => {
                assert(listed(list) == listed(l0));
            },
        }
    }
}

/// The failure that ends the walk of a listing with one failed entry, or
/// its absence, is the same in every order of the listing.
proof fn lemma_failure_ignores_order(
    first: Seq<Result<Entry, String>>,
    second: Seq<Result<Entry, String>>,
)
    requires
        first.to_multiset() == second.to_multiset(),
        at_most_one_failure(first),
        at_most_one_failure(second),
    ensures
        listing_failure(first) == listing_failure(second),
        listing_failure(first) is None ==> forall|k: int|
            0 <= k < first.len() ==> #[trigger] first[k] is Ok,
{
    broadcast use vstd::seq_lib::group_to_multiset_ensures;

    if exists|i: int| 0 <= i < first.len() && first[i] is Err {
        let i = choose|i: int| 0 <= i < first.len() && first[i] is Err;
        lemma_first_failure(first, i);
        assert(first.contains(first[i]));
        assert(second.to_multiset().count(first[i]) > 0);
        assert(second.contains(first[i]));
        let j = choose|j: int| 0 <= j < second.len() && second[j] == first[i];
        assert forall|k: int| 0 <= k < j implies second[k] is Ok by {
            assert(!(second[k] is Err && second[j] is Err));
        }
        lemma_first_failure(second, j);
    } else {
        lemma_no_failure(first);
        assert forall|k: int| 0 <= k < second.len() implies second[k] is Ok by {
            assert(second.contains(second[k]));
            assert(first.to_multiset().count(second[k]) > 0);
            assert(first.contains(second[k]));
        }
        lemma_no_failure(second);
    }
}

/// A walk goes on in the same way whatever order a directory's listing
/// gives its entries in, as long as no two entries share a path and at
/// most one entry failed to be read.
pub proof fn law_walk_ignores_listing_order(
    v: SearchView,
    first: Vec<Result<Entry, String>>,
    second: Vec<Result<Entry, String>>,
)
    requires
        v.stage is Walk,
        first@.to_multiset() == second@.to_multiset(),
        at_most_one_failure(first@),
        at_most_one_failure(second@),
        distinct_keys(listed(first@), by_path()),
    ensures
        step(v, Reply::Listing(Ok(first))) == step(v, Reply::Listing(Ok(second))),
{
    lemma_failure_ignores_order(first@, second@);
    if listing_failure(first@) is None {
        lemma_listed_counts(first@);
        lemma_listed_counts(second@);
        assert(listed(first@).to_multiset() =~= listed(second@).to_multiset());
        law_order_ignores_listing_order(listed(first@), listed(second@), by_path());
    }
}

/// The text written for lines that hold no line feed and do not end with a
/// carriage return has exactly those lines.
proof fn lemma_lines_of_output(ls: Seq<Seq<char>>)
    requires
        forall|k: int, j: int| 0 <= k < ls.len() && 0 <= j < ls[k].len() ==> ls[k][j] != '\n',
        forall|k: int| 0 <= k < ls.len() ==> strip_last(#[trigger] ls[k], '\r') == ls[k],
    ensures
        text_lines(output_text(ls)) == ls,
    decreases ls.len(),
{
    if ls.len() == 0 {
        assert(text_lines(Seq::<char>::empty()) =~= Seq::<Seq<char>>::empty()) by {
            assert(pieces(Seq::<char>::empty(), '\n').drop_last() =~= Seq::<Seq<char>>::empty());
        }
    } else {
        let ls0 = ls.drop_last();
        let l = ls.last();
        lemma_lines_of_output(ls0);
        let o0 = output_text(ls0);
        if ls0.len() > 0 {
            assert(o0.last() == '\n');
        }
        assert(output_text(ls) =~= o0 + l.push('\n'));
        lemma_lines_concat(o0, l.push('\n'), '\n', '\r');
        assert(strip_last(ls[ls.len() - 1], '\r') == l);
        lemma_lines_of_one(l, '\n', '\r');
        assert(ls0 + seq![l] =~= ls);
    }
}

proof fn lemma_filter_keeps_all(s: Seq<Seq<char>>, f: spec_fn(Seq<char>) -> bool)
    requires
        forall|k: int| 0 <= k < s.len() ==> f(#[trigger] s[k]),
    ensures
        s.filter(f) == s,
    decreases s.len(),
{
    reveal(Seq::filter);
    if s.len() > 0 {
        lemma_filter_keeps_all(s.drop_last(), f);
        assert(s.drop_last().push(s.last()) =~= s);
    }
}

/// Searching the output of a search again, with the same pattern, finds
/// every line of it and nothing else, as long as no line found ends with a
/// carriage return.
pub proof fn law_search_of_found_lines_finds_them_again(
    text: Seq<char>,
    pattern: Seq<char>,
    ignore_case: bool,
)
    requires
        forall|k: int|
            0 <= k < matching_text_lines(text, pattern, ignore_case).len() ==> strip_last(
                #[trigger] matching_text_lines(text, pattern, ignore_case)[k],
                '\r',
            ) == matching_text_lines(text, pattern, ignore_case)[k],
    ensures
        matching_text_lines(
            output_text(matching_text_lines(text, pattern, ignore_case)),
            pattern,
            ignore_case,
        ) == matching_text_lines(text, pattern, ignore_case),
{
    broadcast use vstd::seq_lib::group_filter_ensures;

    let sel = selects(pattern, ignore_case);
    let r = matching_text_lines(text, pattern, ignore_case);
    law_lines_hold_no_line_feed(text);
    assert forall|k: int, j: int| 0 <= k < r.len() && 0 <= j < r[k].len() implies r[k][j]
        != '\n' by {
        assert(r.contains(r[k]));
        text_lines(text).lemma_filter_contains_rev(sel, r[k]);
        let i = choose|i: int| 0 <= i < text_lines(text).len() && text_lines(text)[i] == r[k];
        assert(text_lines(text)[i][j] == r[k][j]);
    }
    lemma_lines_of_output(r);
    assert forall|k: int| 0 <= k < r.len() implies sel(#[trigger] r[k]) by {
        assert(r.contains(r[k]));
    }
    lemma_filter_keeps_all(r, sel);
}

/// A line without line feeds, followed by one, splits at line feeds into
/// the line and the empty rest.
proof fn lemma_pieces_of_line(l: Seq<char>)
    requires
        forall|j: int| 0 <= j < l.len() ==> l[j] != '\n',
    ensures
        pieces(l.push('\n'), '\n') == seq![l, Seq::<char>::empty()],
{
    lemma_pieces_append_plain(Seq::<char>::empty(), l, '\n');
    assert(Seq::<char>::empty() + l =~= l);
    assert(pieces(Seq::<char>::empty(), '\n').update(0, Seq::<char>::empty() + l) =~= seq![l]);
    assert(l.push('\n').drop_last() =~= l);
    assert(seq![l].push(Seq::<char>::empty()) =~= seq![l, Seq::<char>::empty()]);
}

/// The text written for lines without line feeds splits at its line feeds
/// into exactly those lines, in order, and the empty rest after the last.
proof fn lemma_pieces_of_output(ls: Seq<Seq<char>>)
    requires
        forall|k: int, j: int| 0 <= k < ls.len() && 0 <= j < ls[k].len() ==> ls[k][j] != '\n',
    ensures
        pieces(output_text(ls), '\n') == ls.push(Seq::<char>::empty()),
    decreases ls.len(),
{
    if ls.len() == 0 {
        assert(pieces(Seq::<char>::empty(), '\n') =~= seq![Seq::<char>::empty()]);
        assert(ls.push(Seq::<char>::empty()) =~= seq![Seq::<char>::empty()]);
    } else {
        let ls0 = ls.drop_last();
        let l = ls.last();
        lemma_pieces_of_output(ls0);
        assert forall|j: int| 0 <= j < l.len() implies l[j] != '\n' by {
            assert(l[j] == ls[ls.len() - 1][j]);
        }
        lemma_pieces_of_line(l);
        let o0 = output_text(ls0);
        assert(output_text(ls) =~= o0 + l.push('\n'));
        if ls0.len() == 0 {
            assert(o0 =~= Seq::<char>::empty());
            assert(o0 + l.push('\n') =~= l.push('\n'));
            assert(ls.push(Seq::<char>::empty()) =~= seq![l, Seq::<char>::empty()]);
        } else {
            assert(o0.last() == '\n');
            lemma_pieces_after_sep(o0, l.push('\n'), '\n');
            assert(ls0.push(Seq::<char>::empty()).drop_last() =~= ls0);
            assert(ls0 + seq![l, Seq::<char>::empty()] =~= ls.push(Seq::<char>::empty()));
        }
    }
}

/// Once the search a run drives has found its lines, the run writes every
/// one of them on standard output, in the order found, none left out, none
/// added and none moved, each ended by a line feed; nothing on standard
/// error; and it exits with code 0 when there is at least one line and 1
/// when there is none.
pub proof fn law_run_writes_every_match_in_order(v: SearchView, lines: Seq<Seq<char>>)
    requires
        wanted(v) == Wanted::Finished(Ok(lines)),
        forall|k: int, j: int|
            0 <= k < lines.len() && 0 <= j < lines[k].len() ==> lines[k][j] != '\n',
    ensures
        run_wanted(RunView::Searching(v)) is Exit,
        pieces(run_wanted(RunView::Searching(v))->Exit_0.stdout, '\n') == lines.push(
            Seq::<char>::empty(),
        ),
        run_wanted(RunView::Searching(v))->Exit_0.stderr.len() == 0,
        run_wanted(RunView::Searching(v))->Exit_0.code == (if lines.len() == 0 {
            1u8
        } else {
            0u8
        }),
{
    lemma_pieces_of_output(lines);
}

/// Once the search a run drives has failed, the run writes nothing on
/// standard output, the failure after `rgrep: ` and ended by a line feed on
/// standard error, and exits with code 2.
pub proof fn law_run_reports_a_failed_search(v: SearchView, message: Seq<char>)
    requires
        wanted(v) == Wanted::Finished(Err(message)),
    ensures
        run_wanted(RunView::Searching(v)) == RunWanted::Exit(
            ExitView { code: 2, stdout: Seq::empty(), stderr: "rgrep: "@ + message + "\n"@ },
        ),
{
}

/// A run takes every reply as the search it drives does: after any reply,
/// it drives what that search goes on to.
pub proof fn law_run_follows_its_search(v: SearchView, reply: Reply)
    ensures
        run_step(RunView::Searching(v), reply) == RunView::Searching(step(v, reply)),
{
}

/// A file that cannot be read ends the search: when a search waits for the
/// text of a file, the failure to read it finishes the search with the
/// file's path, a colon, a space and the reason.
pub proof fn law_failed_read_ends_the_search(v: SearchView, path: Seq<char>, reason: String)
    requires
        wanted(v) == Wanted::ReadFile(path),
    ensures
        wanted(step(v, Reply::Contents(Err(reason)))) == Wanted::Finished(
            Err(path + seq![':', ' '] + reason@),
        ),
{
}

/// A file that cannot be read ends the run: when the search a run drives
/// waits for the text of a file and reading it failed, the run exits with
/// code 2, nothing on standard output, and on standard error the file's
/// path, a colon, a space and the reason.
pub proof fn law_unreadable_file_ends_the_run(v: SearchView, path: Seq<char>, reason: String)
    requires
        wanted(v) == Wanted::ReadFile(path),
    ensures
        run_wanted(run_step(RunView::Searching(v), Reply::Contents(Err(reason))))
            == RunWanted::Exit(
            ExitView {
                code: 2,
                stdout: Seq::empty(),
                stderr: "rgrep: "@ + (path + seq![':', ' '] + reason@) + "\n"@,
            },
        ),
{
    law_failed_read_ends_the_search(v, path, reason);
    law_run_reports_a_failed_search(
        step(v, Reply::Contents(Err(reason))),
        path + seq![':', ' '] + reason@,
    );
}

/// A run that is over stays as it is, whatever reply comes.
pub proof fn law_finished_run_stays(e: ExitView, reply: Reply)
    ensures
        run_step(RunView::Over(e), reply) == RunView::Over(e),
        run_wanted(RunView::Over(e)) == RunWanted::Exit(e),
{
}

} // verus!
