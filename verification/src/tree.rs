//! What a search of a whole directory tree gives. A filesystem is modelled
//! by the reply it gives to each operation; the files under a directory are
//! defined recursively, as a walk that lists a directory, orders its entries
//! by path and descends into each subdirectory in turn; and driving a search
//! against the filesystem is proved to give the matching lines of exactly
//! those files, in that order.

use vstd::prelude::*;
use crate::matching::matching_text_lines;
use crate::order::{
    bytes_le, distinct_keys, lemma_bytes_le_reflexive, lemma_bytes_le_trans,
    lemma_sort_by_key, lemma_sort_keeps_distinct_keys, lemma_sorted_element, sort_by_key,
};
use crate::paths::{
    child_name, components, dir_components, is_child, lemma_child_bytes, lemma_child_components,
    lemma_components_lt_at, lemma_components_lt_irreflexive, lemma_names_antisymmetric, path_lt,
};
use vstd::utf8::encode_utf8;
use crate::search::{
    by_path, failure_message, file_outcome, listed, listing_failure, prefixed, read_view, settle,
    start, step, walk_start, walk_step, walk_wanted, wanted, with_stage, Entry, EntryKind, Reply,
    SearchView, Stage, Wanted,
};

verus! {

/// A filesystem, as the reply it gives to each operation.
pub type Filesystem = spec_fn(Wanted) -> Reply;

/// A machine that moves as `next` says, after `n` operations, each asked
/// for as a search asks and answered by the filesystem.
pub open spec fn drive_by(
    v: SearchView,
    fs: Filesystem,
    n: nat,
    next: spec_fn(SearchView, Reply) -> SearchView,
) -> SearchView
    decreases n,
{
    if n == 0 {
        v
    } else {
        drive_by(next(v, fs(wanted(v))), fs, (n - 1) as nat, next)
    }
}

/// How a search moves.
pub open spec fn search_step() -> spec_fn(SearchView, Reply) -> SearchView {
    |v: SearchView, r: Reply| step(v, r)
}

/// A search after `n` operations, each answered by the filesystem.
pub open spec fn drive(v: SearchView, fs: Filesystem, n: nat) -> SearchView {
    drive_by(v, fs, n, search_step())
}

/// A machine that walks a tree as a search does and stays put once
/// finished.
pub open spec fn walks_as_search(next: spec_fn(SearchView, Reply) -> SearchView) -> bool {
    forall|v: SearchView, r: Reply|
        #![trigger next(v, r)]
        (v.stage is Walk ==> next(v, r) == step(v, r)) && (v.stage is Done ==> next(v, r) == v)
}

/// The files under `dir`, each subdirectory's files in place of the
/// subdirectory, entries in path order; or the first failure met. `None`
/// when the tree is deeper than `depth` or the filesystem answers a listing
/// with something else.
pub open spec fn files_under(fs: Filesystem, dir: Seq<char>, depth: nat) -> Option<
    Result<Seq<Seq<char>>, Seq<char>>,
>
    decreases depth, 1nat, 0nat,
{
    match fs(Wanted::ReadDir(dir)) {
        Reply::Listing(Err(reason)) => Some(Err(failure_message(dir, reason@))),
        Reply::Listing(Ok(list)) => match listing_failure(list@) {
            Some(reason) => Some(Err(failure_message(dir, reason))),
            None => files_in(fs, sort_by_key(listed(list@), by_path()), depth),
        },
        _ => None,
    }
}

/// The files of some entries in order: a file itself, a directory the files
/// under it, nothing for an entry of another kind, and the failure for an
/// entry whose kind could not be read.
pub open spec fn files_in(fs: Filesystem, entries: Seq<Entry>, depth: nat) -> Option<
    Result<Seq<Seq<char>>, Seq<char>>,
>
    decreases depth, 0nat, entries.len(),
{
    if entries.len() == 0 {
        Some(Ok(Seq::empty()))
    } else {
        let e = entries[0];
        let head = match e.kind {
            Err(reason) => Some(Err(failure_message(e.path@, reason@))),
            Ok(EntryKind::Dir) => if depth == 0 {
                None
            } else {
                files_under(fs, e.path@, (depth - 1) as nat)
            },
            Ok(EntryKind::File) => Some(Ok(seq![e.path@])),
            Ok(EntryKind::Other) => Some(Ok(Seq::empty())),
        };
        match head {
            None => None,
            Some(Err(m)) => Some(Err(m)),
            Some(Ok(first)) => match files_in(fs, entries.drop_first(), depth) {
                None => None,
                Some(Err(m)) => Some(Err(m)),
                Some(Ok(rest)) => Some(Ok(first + rest)),
            },
        }
    }
}

/// The matches in some files, in order, each written as the file's path, a
/// colon and the line; or the first failure to read one. `None` when the
/// filesystem answers a read with something else.
pub open spec fn matches_in(
    fs: Filesystem,
    files: Seq<Seq<char>>,
    pattern: Seq<char>,
    ignore_case: bool,
) -> Option<Result<Seq<Seq<char>>, Seq<char>>>
    decreases files.len(),
{
    if files.len() == 0 {
        Some(Ok(Seq::empty()))
    } else {
        match fs(Wanted::ReadFile(files[0])) {
            Reply::Contents(Err(reason)) => Some(Err(failure_message(files[0], reason@))),
            Reply::Contents(Ok(text)) => match matches_in(
                fs,
                files.drop_first(),
                pattern,
                ignore_case,
            ) {
                None => None,
                Some(Err(m)) => Some(Err(m)),
                Some(Ok(rest)) => Some(
                    Ok(prefixed(files[0], matching_text_lines(text@, pattern, ignore_case)) + rest),
                ),
            },
            _ => None,
        }
    }
}

/// Where the walk goes on once a directory's files are known.
pub open spec fn after_walking(
    r: Result<Seq<Seq<char>>, Seq<char>>,
    pending: Seq<Entry>,
    files: Seq<Seq<char>>,
) -> Stage {
    match r {
        Ok(found) => settle(pending, files + found),
        Err(m) => Stage::Done(Err(m)),
    }
}

/// Driving for `a` and then `b` operations is driving for `a + b`.
pub proof fn lemma_drive_add(
    v: SearchView,
    fs: Filesystem,
    a: nat,
    b: nat,
    next: spec_fn(SearchView, Reply) -> SearchView,
)
    ensures
        drive_by(drive_by(v, fs, a, next), fs, b, next) == drive_by(v, fs, a + b, next),
    decreases a,
{
    if a > 0 {
        lemma_drive_add(next(v, fs(wanted(v))), fs, (a - 1) as nat, b, next);
        assert((a + b - 1) as nat == (a - 1) as nat + b);
    }
}

/// A finished machine stays finished however long it is driven.
pub proof fn lemma_drive_done(
    v: SearchView,
    fs: Filesystem,
    n: nat,
    next: spec_fn(SearchView, Reply) -> SearchView,
)
    requires
        v.stage is Done,
        walks_as_search(next),
    ensures
        drive_by(v, fs, n, next) == v,
    decreases n,
{
    if n > 0 {
        assert(next(v, fs(wanted(v))) == v);
        lemma_drive_done(next(v, fs(wanted(v))), fs, (n - 1) as nat, next);
    }
}

/// Walking a directory with entries still pending reaches the point where
/// its files are added and the pending entries come next.
pub proof fn lemma_walk_dir(
    v: SearchView,
    fs: Filesystem,
    dir: Seq<char>,
    pending: Seq<Entry>,
    files: Seq<Seq<char>>,
    depth: nat,
    stepper: spec_fn(SearchView, Reply) -> SearchView,
) -> (n: nat)
    requires
        files_under(fs, dir, depth) is Some,
        walks_as_search(stepper),
    ensures
        drive_by(with_stage(v, Stage::Walk { dir, pending, files }), fs, n, stepper) == with_stage(
            v,
            after_walking(files_under(fs, dir, depth)->Some_0, pending, files),
        ),
    decreases depth, 1nat, 0nat,
{
    let w = with_stage(v, Stage::Walk { dir, pending, files });
    let reply = fs(Wanted::ReadDir(dir));
    assert(wanted(w) == Wanted::ReadDir(dir));
    assert(stepper(w, reply) == step(w, reply));
    let after = step(w, reply);
    match reply {
        Reply::Listing(Ok(list)) => {
            match listing_failure(list@) {
                Some(reason) => {
                    lemma_drive_done(after, fs, 0, stepper);
                    1
                },
                None => {
                    let sorted = sort_by_key(listed(list@), by_path());
                    assert(after == with_stage(v, settle(pending + sorted.reverse(), files)));
                    let m = lemma_walk_entries(v, fs, sorted, pending, files, depth, stepper);
                    assert(drive_by(w, fs, m + 1, stepper) == drive_by(after, fs, m, stepper));
                    m + 1
                },
            }
        },
        _ => {
            lemma_drive_done(after, fs, 0, stepper);
            1
        },
    }
}

/// Looking at entries pushed on top of the pending ones, last pushed first,
/// reaches the point where their files are added and the pending entries
/// come next.
pub proof fn lemma_walk_entries(
    v: SearchView,
    fs: Filesystem,
    entries: Seq<Entry>,
    pending: Seq<Entry>,
    files: Seq<Seq<char>>,
    depth: nat,
    stepper: spec_fn(SearchView, Reply) -> SearchView,
) -> (n: nat)
    requires
        files_in(fs, entries, depth) is Some,
        walks_as_search(stepper),
    ensures
        drive_by(with_stage(v, settle(pending + entries.reverse(), files)), fs, n, stepper)
            == with_stage(
            v,
            after_walking(files_in(fs, entries, depth)->Some_0, pending, files),
        ),
    decreases depth, 0nat, entries.len(),
{
    if entries.len() == 0 {
        assert(pending + entries.reverse() =~= pending);
        assert(files + Seq::<Seq<char>>::empty() =~= files);
        0
    } else {
        let e = entries[0];
        let rest = entries.drop_first();
        let stack = pending + entries.reverse();
        assert(stack.last() == e);
        assert(stack.drop_last() =~= pending + rest.reverse());
        match e.kind {
            Err(reason) => {
                lemma_drive_done(with_stage(v, settle(stack, files)), fs, 0, stepper);
                0
            },
            Ok(EntryKind::File) => {
                assert(settle(stack, files) == settle(pending + rest.reverse(), files.push(e.path@)));
                let n = lemma_walk_entries(v, fs, rest, pending, files.push(e.path@), depth, stepper);
                match files_in(fs, rest, depth)->Some_0 {
                    Ok(found) => {
                        assert(files.push(e.path@) + found =~= files + (seq![e.path@] + found));
                    },
                    Err(m) => {},
                }
                n
            },
            Ok(EntryKind::Other) => {
                assert(settle(stack, files) == settle(pending + rest.reverse(), files));
                let n = lemma_walk_entries(v, fs, rest, pending, files, depth, stepper);
                match files_in(fs, rest, depth)->Some_0 {
                    Ok(found) => {
                        assert(Seq::<Seq<char>>::empty() + found =~= found);
                    },
                    Err(m) => {},
                }
                n
            },
            Ok(EntryKind::Dir) => {
                let below = pending + rest.reverse();
                assert(settle(stack, files) == Stage::Walk { dir: e.path@, pending: below, files });
                let n1 = lemma_walk_dir(v, fs, e.path@, below, files, (depth - 1) as nat, stepper);
                match files_under(fs, e.path@, (depth - 1) as nat)->Some_0 {
                    Err(m) => {
                        n1
                    },
                    Ok(first) => {
                        let n2 = lemma_walk_entries(v, fs, rest, pending, files + first, depth, stepper);
                        lemma_drive_add(
                            with_stage(v, Stage::Walk { dir: e.path@, pending: below, files }),
                            fs,
                            n1,
                            n2,
                            stepper,
                        );
                        match files_in(fs, rest, depth)->Some_0 {
                            Ok(found) => {
                                assert(files + first + found =~= files + (first + found));
                            },
                            Err(m) => {},
                        }
                        n1 + n2
                    },
                }
            },
        }
    }
}

/// Reading the files found from the `next` one on reaches the end of the
/// search with their matches added.
pub proof fn lemma_read_files(
    v: SearchView,
    fs: Filesystem,
    files: Seq<Seq<char>>,
    next: int,
    found: Seq<Seq<char>>,
) -> (n: nat)
    requires
        0 <= next < files.len(),
        matches_in(fs, files.skip(next), v.pattern, v.ignore_case) is Some,
    ensures
        drive(with_stage(v, Stage::Read { files, next, found }), fs, n) == with_stage(
            v,
            Stage::Done(
                match matches_in(fs, files.skip(next), v.pattern, v.ignore_case)->Some_0 {
                    Ok(more) => Ok(found + more),
                    Err(m) => Err(m),
                },
            ),
        ),
    decreases files.len() - next,
{
    let w = with_stage(v, Stage::Read { files, next, found });
    let tail = files.skip(next);
    assert(tail[0] == files[next]);
    assert(tail.drop_first() =~= files.skip(next + 1));
    let reply = fs(Wanted::ReadFile(files[next]));
    let s1 = step(w, reply);
    match reply {
        Reply::Contents(Ok(text)) => {
            let added = prefixed(files[next], matching_text_lines(text@, v.pattern, v.ignore_case));
            if next + 1 >= files.len() {
                assert(files.skip(next + 1) =~= Seq::<Seq<char>>::empty());
                assert(added + Seq::<Seq<char>>::empty() =~= added);
                lemma_drive_done(s1, fs, 0, search_step());
                1
            } else {
                let m = lemma_read_files(v, fs, files, next + 1, found + added);
                match matches_in(fs, files.skip(next + 1), v.pattern, v.ignore_case)->Some_0 {
                    Ok(more) => {
                        assert(found + added + more =~= found + (added + more));
                    },
                    Err(e) => {},
                }
                m + 1
            }
        },
        _ => {
            lemma_drive_done(s1, fs, 0, search_step());
            1
        },
    }
}

/// What searching a directory tree gives: the matches in the files under it,
/// in path order, each written as the file's path, a colon and the line; or
/// the first failure met while walking the tree or reading its files.
pub open spec fn tree_outcome(
    fs: Filesystem,
    root: Seq<char>,
    pattern: Seq<char>,
    ignore_case: bool,
    depth: nat,
) -> Option<Result<Seq<Seq<char>>, Seq<char>>> {
    match files_under(fs, root, depth) {
        None => None,
        Some(Err(m)) => Some(Err(m)),
        Some(Ok(files)) => matches_in(fs, files, pattern, ignore_case),
    }
}

/// A search of a directory, driven against a filesystem whose tree under
/// it is at most `depth` deep, finishes with the matches in every file under
/// the directory, visited in path order and depth first, or with the first
/// failure met.
pub proof fn law_directory_search(
    pattern: Seq<char>,
    root: Seq<char>,
    ignore_case: bool,
    fs: Filesystem,
    depth: nat,
) -> (n: nat)
    requires
        fs(Wanted::Metadata(root)) == Reply::Metadata(Ok(true)),
        tree_outcome(fs, root, pattern, ignore_case, depth) is Some,
    ensures
        wanted(drive(start(pattern, root, ignore_case), fs, n)) == Wanted::Finished(
            tree_outcome(fs, root, pattern, ignore_case, depth)->Some_0,
        ),
{
    let v0 = start(pattern, root, ignore_case);
    let v1 = step(v0, fs(Wanted::Metadata(root)));
    let empty_files = Seq::<Seq<char>>::empty();
    assert(v1 == with_stage(
        v0,
        Stage::Walk { dir: root, pending: Seq::empty(), files: empty_files },
    ));
    let n1 = lemma_walk_dir(v0, fs, root, Seq::empty(), empty_files, depth, search_step());
    lemma_drive_add(v1, fs, n1, 0, search_step());
    match files_under(fs, root, depth)->Some_0 {
        Err(m) => {
            assert(drive(v0, fs, n1 + 1) == drive(v1, fs, n1));
            n1 + 1
        },
        Ok(files) => {
            assert(empty_files + files =~= files);
            let v2 = with_stage(v0, settle(Seq::empty(), files));
            assert(drive(v0, fs, n1 + 1) == v2);
            if files.len() == 0 {
                n1 + 1
            } else {
                assert(files.skip(0) =~= files);
                let n2 = lemma_read_files(v0, fs, files, 0, Seq::empty());
                lemma_drive_add(v0, fs, n1 + 1, n2, search_step());
                match matches_in(fs, files, pattern, ignore_case)->Some_0 {
                    Ok(more) => {
                        assert(Seq::<Seq<char>>::empty() + more =~= more);
                    },
                    Err(m) => {},
                }
                n1 + 1 + n2
            }
        },
    }
}


/// A listing of `dir` that was read holds entries directly in `dir`, no two
/// with the same path.
pub open spec fn listing_of_children(dir: Seq<char>, reply: Reply) -> bool {
    match reply {
        Reply::Listing(Ok(list)) => {
            &&& forall|k: int|
                0 <= k < listed(list@).len() ==> is_child(dir, #[trigger] listed(list@)[k].path@)
            &&& distinct_keys(listed(list@), by_path())
        },
        _ => true,
    }
}

/// Every listing the filesystem gives holds entries directly in the
/// directory listed, no two with the same path, as a real directory's
/// listing does.
pub open spec fn lists_children(fs: Filesystem) -> bool {
    forall|dir: Seq<char>|
        #![trigger fs(Wanted::ReadDir(dir))]
        listing_of_children(dir, fs(Wanted::ReadDir(dir)))
}

/// Strictly increasing in path order.
pub open spec fn path_sorted(files: Seq<Seq<char>>) -> bool {
    forall|i: int, j: int| 0 <= i < j < files.len() ==> path_lt(files[i], files[j])
}

/// `c` starts with all of `d` and has more.
pub open spec fn extends(c: Seq<Seq<char>>, d: Seq<Seq<char>>) -> bool {
    c.len() > d.len() && c.take(d.len() as int) == d
}

/// The files under a directory are in path order, each under the directory.
proof fn lemma_under_in_order(fs: Filesystem, dir: Seq<char>, depth: nat)
    requires
        lists_children(fs),
        files_under(fs, dir, depth) is Some,
        files_under(fs, dir, depth)->Some_0 is Ok,
    ensures
        ({
            let files = files_under(fs, dir, depth)->Some_0->Ok_0;
            &&& path_sorted(files)
            &&& forall|i: int|
                0 <= i < files.len() ==> extends(
                    #[trigger] components(files[i]),
                    dir_components(dir),
                )
        }),
    decreases depth, 1nat, 0nat,
{
    let reply = fs(Wanted::ReadDir(dir));
    assert(listing_of_children(dir, reply));
    match reply {
        Reply::Listing(Ok(list)) => {
            let ls = listed(list@);
            let entries = sort_by_key(ls, by_path());
            lemma_sort_by_key(ls, by_path());
            lemma_sort_keeps_distinct_keys(ls, by_path());
            assert forall|k: int| 0 <= k < entries.len() implies is_child(
                dir,
                #[trigger] entries[k].path@,
            ) by {
                let j = lemma_sorted_element(ls, by_path(), k);
                assert(is_child(dir, ls[j].path@));
            }
            assert forall|i: int, j: int| 0 <= i < j < entries.len() implies bytes_le(
                encode_utf8(entries[i].path@),
                encode_utf8(entries[j].path@),
            ) && entries[i].path@ != entries[j].path@ by {
                assert(bytes_le(by_path()(entries[i]), by_path()(entries[j])));
                assert(by_path()(entries[i]) != by_path()(entries[j]));
            }
            lemma_in_in_order(fs, dir, entries, depth);
        },
        _ => {},
    }
}

/// The files of entries directly in a directory, taken in strictly
/// increasing byte order of their paths, are in path order, each under the
/// directory with a name from the first entry's on.
proof fn lemma_in_in_order(fs: Filesystem, dir: Seq<char>, entries: Seq<Entry>, depth: nat)
    requires
        lists_children(fs),
        forall|k: int| 0 <= k < entries.len() ==> is_child(dir, #[trigger] entries[k].path@),
        forall|i: int, j: int|
            0 <= i < j < entries.len() ==> bytes_le(
                encode_utf8(entries[i].path@),
                encode_utf8(entries[j].path@),
            ) && entries[i].path@ != entries[j].path@,
        files_in(fs, entries, depth) is Some,
        files_in(fs, entries, depth)->Some_0 is Ok,
    ensures
        ({
            let files = files_in(fs, entries, depth)->Some_0->Ok_0;
            let d = dir_components(dir);
            &&& path_sorted(files)
            &&& forall|i: int|
                0 <= i < files.len() ==> extends(#[trigger] components(files[i]), d)
                    && bytes_le(
                    encode_utf8(child_name(dir, entries[0].path@)),
                    encode_utf8(components(files[i])[d.len() as int]),
                )
        }),
    decreases depth, 0nat, entries.len(),
{
    if entries.len() > 0 {
        let d = dir_components(dir);
        let n = d.len() as int;
        let e = entries[0];
        let rest = entries.drop_first();
        let n0 = child_name(dir, e.path@);
        lemma_child_components(dir, e.path@);
        lemma_bytes_le_reflexive(encode_utf8(n0));
        assert(components(e.path@).take(n) =~= d);
        let head: Seq<Seq<char>> = match e.kind {
            Ok(EntryKind::Dir) => {
                lemma_under_in_order(fs, e.path@, (depth - 1) as nat);
                files_under(fs, e.path@, (depth - 1) as nat)->Some_0->Ok_0
            },
            Ok(EntryKind::File) => seq![e.path@],
            _ => Seq::empty(),
        };
        // every file of the first entry lies under it
        assert forall|i: int| 0 <= i < head.len() implies extends(#[trigger] components(head[i]), d)
            && components(head[i])[n] == n0 by {
            let c = components(head[i]);
            if e.kind == Ok::<EntryKind, String>(EntryKind::Dir) {
                assert(extends(c, dir_components(e.path@)));
                assert(c.take(n + 1) == d.push(n0));
                assert(c.take(n + 1).take(n) =~= c.take(n));
                assert(d.push(n0).take(n) =~= d);
                assert(c.take(n + 1)[n] == c[n]);
            }
        }
        lemma_in_in_order(fs, dir, rest, depth);
        let tail = files_in(fs, rest, depth)->Some_0->Ok_0;
        let files = files_in(fs, entries, depth)->Some_0->Ok_0;
        assert(files == head + tail);
        // the files of later entries come after
        assert forall|j: int| 0 <= j < tail.len() implies components(#[trigger] tail[j])[n] != n0
            && bytes_le(encode_utf8(n0), encode_utf8(components(tail[j])[n])) by {
            let m = components(tail[j])[n];
            let n1 = child_name(dir, rest[0].path@);
            assert(rest[0] == entries[1]);
            lemma_child_bytes(dir, e.path@, rest[0].path@);
            lemma_bytes_le_trans(encode_utf8(n0), encode_utf8(n1), encode_utf8(m));
            if m == n0 {
                lemma_names_antisymmetric(n0, n1);
            }
        }
        assert forall|i: int, j: int| 0 <= i < j < files.len() implies path_lt(
            files[i],
            files[j],
        ) by {
            if j < head.len() {
                assert(files[i] == head[i] && files[j] == head[j]);
            } else if i >= head.len() {
                assert(files[i] == tail[i - head.len()] && files[j] == tail[j - head.len()]);
            } else {
                assert(files[i] == head[i] && files[j] == tail[j - head.len()]);
                let a = components(files[i]);
                let b = components(files[j]);
                assert(extends(a, d));
                assert(extends(b, d));
                lemma_components_lt_at(d, a, b);
            }
        }
        assert forall|i: int| 0 <= i < files.len() implies extends(
            #[trigger] components(files[i]),
            d,
        ) && bytes_le(encode_utf8(n0), encode_utf8(components(files[i])[n])) by {
            if i < head.len() {
                assert(files[i] == head[i]);
            } else {
                assert(files[i] == tail[i - head.len()]);
            }
        }
    }
}

/// In a filesystem whose listings hold entries directly in the directory
/// listed, no two alike, the files under a directory come out strictly in
/// path order: compared component by component, each component by its
/// bytes, so that the files under a subdirectory come together, before
/// the entries whose names come after the subdirectory's. No file comes
/// twice.
pub proof fn law_walk_is_in_path_order(fs: Filesystem, dir: Seq<char>, depth: nat)
    requires
        lists_children(fs),
        files_under(fs, dir, depth) is Some,
        files_under(fs, dir, depth)->Some_0 is Ok,
    ensures
        path_sorted(files_under(fs, dir, depth)->Some_0->Ok_0),
        (files_under(fs, dir, depth)->Some_0->Ok_0).no_duplicates(),
{
    lemma_under_in_order(fs, dir, depth);
    let files = files_under(fs, dir, depth)->Some_0->Ok_0;
    assert forall|i: int, j: int| 0 <= i < files.len() && 0 <= j < files.len() && i != j implies files[i]
        != files[j] by {
        lemma_components_lt_irreflexive(components(files[i]));
        if i < j {
            assert(path_lt(files[i], files[j]));
        } else {
            assert(path_lt(files[j], files[i]));
        }
    }
}

/// The failure an outcome ends with, if it ends with one.
pub open spec fn failure_of(o: Option<Result<Seq<Seq<char>>, Seq<char>>>) -> Option<Seq<char>> {
    match o {
        Some(Err(m)) => Some(m),
        _ => None,
    }
}

proof fn lemma_read_failures_ignore_query(
    fs: Filesystem,
    files: Seq<Seq<char>>,
    pattern: Seq<char>,
    ignore_case: bool,
    other: Seq<char>,
    other_ignore_case: bool,
)
    ensures
        (matches_in(fs, files, pattern, ignore_case) is None) == (matches_in(
            fs,
            files,
            other,
            other_ignore_case,
        ) is None),
        failure_of(matches_in(fs, files, pattern, ignore_case)) == failure_of(
            matches_in(fs, files, other, other_ignore_case),
        ),
    decreases files.len(),
{
    if files.len() > 0 {
        lemma_read_failures_ignore_query(
            fs,
            files.drop_first(),
            pattern,
            ignore_case,
            other,
            other_ignore_case,
        );
    }
}

/// Whether a search fails, and with what message, depends neither on the
/// pattern nor on whether case is ignored: for a directory, driven against
/// the same filesystem, and for a single file, read with the same outcome.
pub proof fn law_failures_ignore_the_query(
    fs: Filesystem,
    root: Seq<char>,
    depth: nat,
    read: Result<Seq<char>, Seq<char>>,
    pattern: Seq<char>,
    ignore_case: bool,
    other: Seq<char>,
    other_ignore_case: bool,
)
    ensures
        (tree_outcome(fs, root, pattern, ignore_case, depth) is None) == (tree_outcome(
            fs,
            root,
            other,
            other_ignore_case,
            depth,
        ) is None),
        failure_of(tree_outcome(fs, root, pattern, ignore_case, depth)) == failure_of(
            tree_outcome(fs, root, other, other_ignore_case, depth),
        ),
        (file_outcome(pattern, root, read, ignore_case) is Err) == (file_outcome(
            other,
            root,
            read,
            other_ignore_case,
        ) is Err),
        file_outcome(pattern, root, read, ignore_case) is Err ==> file_outcome(
            pattern,
            root,
            read,
            ignore_case,
        ) == file_outcome(other, root, read, other_ignore_case),
{
    match files_under(fs, root, depth) {
        Some(Ok(files)) => {
            lemma_read_failures_ignore_query(
                fs,
                files,
                pattern,
                ignore_case,
                other,
                other_ignore_case,
            );
        },
        _ => {},
    }
}

/// `f` maps each position of `a`, increasing, to a position of `b` that
/// holds the same element: `a` is `b` with some elements left out.
pub open spec fn kept_in<T>(a: Seq<T>, b: Seq<T>, f: spec_fn(int) -> int) -> bool {
    &&& forall|i: int, j: int| 0 <= i < j < a.len() ==> #[trigger] f(i) < #[trigger] f(j)
    &&& forall|i: int| 0 <= i < a.len() ==> 0 <= #[trigger] f(i) < b.len() && a[i] == b[f(i)]
}

/// `a` is `b` with some elements left out, the others in the same order.
pub open spec fn is_subsequence<T>(a: Seq<T>, b: Seq<T>) -> bool {
    exists|f: spec_fn(int) -> int| #[trigger] kept_in(a, b, f)
}

proof fn lemma_filter_kept<T>(s: Seq<T>, keep: spec_fn(T) -> bool) -> (f: spec_fn(int) -> int)
    ensures
        kept_in(s.filter(keep), s, f),
    decreases s.len(),
{
    reveal(Seq::filter);
    if s.len() == 0 {
        |i: int| i
    } else {
        let f0 = lemma_filter_kept(s.drop_last(), keep);
        let r0 = s.drop_last().filter(keep);
        if keep(s.last()) {
            let n = r0.len();
            let last = s.len() - 1;
            let f = |i: int| if i < n {
                f0(i)
            } else {
                last
            };
            assert(kept_in(s.filter(keep), s, f)) by {
                let r = s.filter(keep);
                assert(r == r0.push(s.last()));
                assert forall|i: int| 0 <= i < r.len() implies 0 <= #[trigger] f(i) < s.len()
                    && r[i] == s[f(i)] by {
                    if i < n {
                        assert(f(i) == f0(i));
                        assert(r0[i] == s.drop_last()[f0(i)]);
                    }
                }
            }
            f
        } else {
            assert(kept_in(s.filter(keep), s, f0)) by {
                let r = s.filter(keep);
                assert forall|i: int| 0 <= i < r.len() implies 0 <= #[trigger] f0(i) < s.len()
                    && r[i] == s[f0(i)] by {
                    assert(r0[i] == s.drop_last()[f0(i)]);
                }
            }
            f0
        }
    }
}

proof fn lemma_kept_concat<T>(
    a1: Seq<T>,
    b1: Seq<T>,
    f1: spec_fn(int) -> int,
    a2: Seq<T>,
    b2: Seq<T>,
    f2: spec_fn(int) -> int,
) -> (f: spec_fn(int) -> int)
    requires
        kept_in(a1, b1, f1),
        kept_in(a2, b2, f2),
    ensures
        kept_in(a1 + a2, b1 + b2, f),
{
    let n = a1.len();
    let m = b1.len();
    let f = |i: int| if i < n {
        f1(i)
    } else {
        m + f2(i - n)
    };
    assert forall|i: int| 0 <= i < a1.len() + a2.len() implies 0 <= #[trigger] f(i) < m + b2.len()
        && (a1 + a2)[i] == (b1 + b2)[f(i)] by {
        if i < n {
            assert(0 <= f1(i) < m);
        } else {
            assert(0 <= f2(i - n) < b2.len());
        }
    }
    assert forall|i: int, j: int| 0 <= i < j < a1.len() + a2.len() implies #[trigger] f(i) < #[trigger] f(j) by {
        if j < n {
        } else if i < n {
            assert(0 <= f1(i) < m);
            assert(0 <= f2(j - n));
        } else {
            assert(f2(i - n) < f2(j - n));
        }
    }
    f
}

proof fn lemma_exact_among_caseless(fs: Filesystem, files: Seq<Seq<char>>, pattern: Seq<char>) -> (f:
    spec_fn(int) -> int)
    requires
        matches_in(fs, files, pattern, false) is Some,
        matches_in(fs, files, pattern, false)->Some_0 is Ok,
    ensures
        matches_in(fs, files, pattern, true) is Some,
        matches_in(fs, files, pattern, true)->Some_0 is Ok,
        kept_in(
            matches_in(fs, files, pattern, false)->Some_0->Ok_0,
            matches_in(fs, files, pattern, true)->Some_0->Ok_0,
            f,
        ),
    decreases files.len(),
{
    if files.len() == 0 {
        |i: int| i
    } else {
        let rest = files.drop_first();
        let f_rest = lemma_exact_among_caseless(fs, rest, pattern);
        match fs(Wanted::ReadFile(files[0])) {
            Reply::Contents(Ok(text)) => {
                let caseless = matching_text_lines(text@, pattern, true);
                let exact = matching_text_lines(text@, pattern, false);
                crate::matching::law_exact_matches_among_caseless_matches(text@, pattern);
                let g = lemma_filter_kept(caseless, crate::matching::selects(pattern, false));
                let a = prefixed(files[0], exact);
                let b = prefixed(files[0], caseless);
                assert(kept_in(a, b, g)) by {
                    assert forall|i: int| 0 <= i < a.len() implies 0 <= #[trigger] g(i) < b.len()
                        && a[i] == b[g(i)] by {
                        assert(exact[i] == caseless[g(i)]);
                    }
                }
                lemma_kept_concat(
                    a,
                    b,
                    g,
                    matches_in(fs, rest, pattern, false)->Some_0->Ok_0,
                    matches_in(fs, rest, pattern, true)->Some_0->Ok_0,
                    f_rest,
                )
            },
            _ => f_rest,
        }
    }
}

/// A directory search with case taken into account, where it succeeds,
/// finds a part of what the search with case ignored finds against the same
/// filesystem, in the same order: every exact match is also a match when
/// case is ignored.
pub proof fn law_exact_search_within_caseless_search(
    fs: Filesystem,
    root: Seq<char>,
    pattern: Seq<char>,
    depth: nat,
)
    requires
        tree_outcome(fs, root, pattern, false, depth) is Some,
        tree_outcome(fs, root, pattern, false, depth)->Some_0 is Ok,
    ensures
        tree_outcome(fs, root, pattern, true, depth) is Some,
        tree_outcome(fs, root, pattern, true, depth)->Some_0 is Ok,
        is_subsequence(
            tree_outcome(fs, root, pattern, false, depth)->Some_0->Ok_0,
            tree_outcome(fs, root, pattern, true, depth)->Some_0->Ok_0,
        ),
{
    let files = files_under(fs, root, depth)->Some_0->Ok_0;
    let f = lemma_exact_among_caseless(fs, files, pattern);
    assert(kept_in(
        tree_outcome(fs, root, pattern, false, depth)->Some_0->Ok_0,
        tree_outcome(fs, root, pattern, true, depth)->Some_0->Ok_0,
        f,
    ));
}

/// Walking the tree under a directory, driven against a filesystem whose
/// tree under it is at most `depth` deep, finishes with the files under the
/// directory, in path order and depth first, or with the first failure met.
pub proof fn law_walk_finds_the_files_under(fs: Filesystem, root: Seq<char>, depth: nat) -> (n: nat)
    requires
        files_under(fs, root, depth) is Some,
    ensures
        walk_wanted(drive_by(walk_start(root), fs, n, walk_step())) == Wanted::Finished(
            files_under(fs, root, depth)->Some_0,
        ),
{
    let v = walk_start(root);
    assert(walks_as_search(walk_step()));
    let n = lemma_walk_dir(v, fs, root, Seq::empty(), Seq::empty(), depth, walk_step());
    assert(v == with_stage(
        v,
        Stage::Walk { dir: root, pending: Seq::empty(), files: Seq::empty() },
    ));
    match files_under(fs, root, depth)->Some_0 {
        Ok(files) => {
            assert(Seq::<Seq<char>>::empty() + files =~= files);
        },
        Err(m) => {},
    }
    n
}

/// What searching a path gives, from what the filesystem says of it: the
/// failure to read its metadata; for a directory, the matches in the files
/// under it; for anything else, the matches in its text, or the failure to
/// read it. `None` when the filesystem answers with something else or the
/// tree is deeper than `depth`.
pub open spec fn path_outcome(
    fs: Filesystem,
    root: Seq<char>,
    pattern: Seq<char>,
    ignore_case: bool,
    depth: nat,
) -> Option<Result<Seq<Seq<char>>, Seq<char>>> {
    match fs(Wanted::Metadata(root)) {
        Reply::Metadata(Err(reason)) => Some(Err(failure_message(root, reason@))),
        Reply::Metadata(Ok(true)) => tree_outcome(fs, root, pattern, ignore_case, depth),
        Reply::Metadata(Ok(false)) => match fs(Wanted::ReadFile(root)) {
            Reply::Contents(read) => Some(file_outcome(pattern, root, read_view(read), ignore_case)),
            _ => None,
        },
        _ => None,
    }
}

/// A search of any path, driven against a filesystem, finishes with what
/// `path_outcome` says.
pub proof fn law_path_search(
    pattern: Seq<char>,
    root: Seq<char>,
    ignore_case: bool,
    fs: Filesystem,
    depth: nat,
) -> (n: nat)
    requires
        path_outcome(fs, root, pattern, ignore_case, depth) is Some,
    ensures
        wanted(drive(start(pattern, root, ignore_case), fs, n)) == Wanted::Finished(
            path_outcome(fs, root, pattern, ignore_case, depth)->Some_0,
        ),
{
    let v0 = start(pattern, root, ignore_case);
    let v1 = step(v0, fs(Wanted::Metadata(root)));
    match fs(Wanted::Metadata(root)) {
        Reply::Metadata(Ok(true)) => law_directory_search(pattern, root, ignore_case, fs, depth),
        Reply::Metadata(Ok(false)) => {
            let v2 = step(v1, fs(Wanted::ReadFile(root)));
            assert(wanted(v0) == Wanted::Metadata(root));
            assert(drive(v0, fs, 2) == drive_by(v1, fs, 1, search_step()));
            assert(wanted(v1) == Wanted::ReadFile(root));
            assert(drive_by(v1, fs, 1, search_step()) == drive_by(v2, fs, 0, search_step()));
            2
        },
        _ => {
            assert(drive(v0, fs, 1) == drive_by(v1, fs, 0, search_step()));
            1
        },
    }
}

/// Against the same filesystem, a search of a path with case ignored fails
/// exactly when the search with case taken into account does, with the same
/// message; otherwise it gives, for a directory, the matches in the files
/// under it with case ignored, and for anything else what `search_file`
/// with case ignored gives for what reading it gave.
pub proof fn law_caseless_path_search_beside_exact(
    fs: Filesystem,
    root: Seq<char>,
    pattern: Seq<char>,
    depth: nat,
)
    ensures
        (path_outcome(fs, root, pattern, true, depth) is None) == (path_outcome(
            fs,
            root,
            pattern,
            false,
            depth,
        ) is None),
        failure_of(path_outcome(fs, root, pattern, true, depth)) == failure_of(
            path_outcome(fs, root, pattern, false, depth),
        ),
        fs(Wanted::Metadata(root)) == Reply::Metadata(Ok(true)) ==> path_outcome(
            fs,
            root,
            pattern,
            true,
            depth,
        ) == tree_outcome(fs, root, pattern, true, depth),
        fs(Wanted::Metadata(root)) == Reply::Metadata(Ok(false)) ==> match fs(
            Wanted::ReadFile(root),
        ) {
            Reply::Contents(read) => path_outcome(fs, root, pattern, true, depth) == Some(
                file_outcome(pattern, root, read_view(read), true),
            ),
            _ => path_outcome(fs, root, pattern, true, depth) is None,
        },
{
    match fs(Wanted::Metadata(root)) {
        Reply::Metadata(Ok(true)) => {
            law_failures_ignore_the_query(
                fs,
                root,
                depth,
                Ok(Seq::empty()),
                pattern,
                true,
                pattern,
                false,
            );
        },
        _ => {},
    }
}

/// Against the same filesystem, a search of any path with case taken into
/// account, where it succeeds, finds a part of what the search with case
/// ignored finds, in the same order.
pub proof fn law_exact_path_search_within_caseless(
    fs: Filesystem,
    root: Seq<char>,
    pattern: Seq<char>,
    depth: nat,
)
    requires
        path_outcome(fs, root, pattern, false, depth) is Some,
        path_outcome(fs, root, pattern, false, depth)->Some_0 is Ok,
    ensures
        path_outcome(fs, root, pattern, true, depth) is Some,
        path_outcome(fs, root, pattern, true, depth)->Some_0 is Ok,
        is_subsequence(
            path_outcome(fs, root, pattern, false, depth)->Some_0->Ok_0,
            path_outcome(fs, root, pattern, true, depth)->Some_0->Ok_0,
        ),
{
    match fs(Wanted::Metadata(root)) {
        Reply::Metadata(Ok(true)) => {
            law_exact_search_within_caseless_search(fs, root, pattern, depth);
        },
        _ => {
            match fs(Wanted::ReadFile(root)) {
                Reply::Contents(Ok(text)) => {
                    crate::matching::law_exact_matches_among_caseless_matches(text@, pattern);
                    let f = lemma_filter_kept(
                        matching_text_lines(text@, pattern, true),
                        crate::matching::selects(pattern, false),
                    );
                    assert(kept_in(
                        path_outcome(fs, root, pattern, false, depth)->Some_0->Ok_0,
                        path_outcome(fs, root, pattern, true, depth)->Some_0->Ok_0,
                        f,
                    ));
                },
                _ => {},
            }
        },
    }
}

} // verus!
