//! Searching a file or a directory tree. The filesystem is not touched here:
//! a search states which operation it needs next and takes what that
//! operation gave, so that every decision of the walk is verified.

use vstd::prelude::*;
use vstd::string::StringExecFns;
use vstd::utf8::encode_utf8;
use crate::matching::{matching_text_lines, views};
use crate::order::{bytes_leq, insert_by_key, sort_by_key};

verus! {

/// What a directory entry is, read from the entry itself and not from what
/// it points at: a symbolic link is neither a directory nor a file.
#[derive(Clone, Copy, Debug)]
pub enum EntryKind {
    Dir,
    File,
    Other,
}

/// One entry of a directory listing: its path (the directory's path joined
/// with the entry's name), and its kind or why that could not be read.
#[derive(Debug)]
pub struct Entry {
    pub path: String,
    pub kind: Result<EntryKind, String>,
}

/// A filesystem operation that a search needs done next.
#[derive(Debug)]
pub enum Request {
    /// Whether the path is a directory (following symbolic links).
    Metadata(String),
    /// The contents of the file at the path, as text.
    ReadFile(String),
    /// The entries of the directory at the path.
    ReadDir(String),
}

/// What an operation gave; each failure carries the reason as text.
#[derive(Debug)]
pub enum Reply {
    /// For `Request::Metadata`: whether the path is a directory.
    Metadata(Result<bool, String>),
    /// For `Request::ReadFile`: the file's text.
    Contents(Result<String, String>),
    /// For `Request::ReadDir`: the entries in the order the listing gave
    /// them, each of which may have failed to be read.
    Listing(Result<Vec<Result<Entry, String>>, String>),
}

/// Where a search stands: an operation to be done, or its result.
#[derive(Debug)]
pub enum Progress {
    Pending(Request),
    Finished(Result<Vec<String>, String>),
}

/* models */

/// The texts of a sequence of strings.
pub open spec fn string_views(v: Seq<String>) -> Seq<Seq<char>> {
    v.map_values(|s: String| s@)
}

/// The result of a search, as texts.
pub open spec fn outcome_view(r: Result<Vec<String>, String>) -> Result<Seq<Seq<char>>, Seq<char>> {
    match r {
        Ok(v) => Ok(string_views(v@)),
        Err(e) => Err(e@),
    }
}

/// The result of reading a file, as texts.
pub open spec fn read_view(r: Result<String, String>) -> Result<Seq<char>, Seq<char>> {
    match r {
        Ok(t) => Ok(t@),
        Err(e) => Err(e@),
    }
}

/// The message for a failed operation: the path, a colon, a space and the
/// reason.
pub open spec fn failure_message(path: Seq<char>, reason: Seq<char>) -> Seq<char> {
    path + seq![':', ' '] + reason
}

/// What searching a file gives, from what reading it gave: the matching
/// lines of its text, or the failure to read it.
pub open spec fn file_outcome(
    pattern: Seq<char>,
    path: Seq<char>,
    read: Result<Seq<char>, Seq<char>>,
    ignore_case: bool,
) -> Result<Seq<Seq<char>>, Seq<char>> {
    match read {
        Ok(text) => Ok(matching_text_lines(text, pattern, ignore_case)),
        Err(reason) => Err(failure_message(path, reason)),
    }
}

/// Each line preceded by the file's path and a colon.
pub open spec fn prefixed(file: Seq<char>, lines: Seq<Seq<char>>) -> Seq<Seq<char>> {
    lines.map_values(|l: Seq<char>| file + seq![':'] + l)
}

/* executable helpers */

/// The message for a failed operation on `path`.
fn failure(path: &str, reason: &str) -> (m: String)
    ensures
        m@ == failure_message(path@, reason@),
{
    let mut m = path.to_owned();
    m.append(": ");
    m.append(reason);
    proof {
        reveal_strlit(": ");
        assert(m@ =~= failure_message(path@, reason@));
    }
    m
}

/// Owned copies of some lines.
fn owned_lines(lines: &Vec<&str>) -> (owned: Vec<String>)
    ensures
        string_views(owned@) == views(lines@),
{
    let mut owned: Vec<String> = Vec::new();
    let mut i: usize = 0;
    while i < lines.len()
        invariant
            i <= lines@.len(),
            string_views(owned@) == views(lines@.take(i as int)),
        decreases lines@.len() - i,
    {
        owned.push(lines[i].to_owned());
        proof {
            assert(views(lines@.take(i + 1)) =~= views(lines@.take(i as int)).push(lines@[i as int]@));
            assert(string_views(owned@) =~= string_views(owned@.drop_last()).push(owned@.last()@));
        }
        i += 1;
    }
    proof {
        assert(lines@.take(lines@.len() as int) =~= lines@);
    }
    owned
}

/// Copies of some strings.
fn copy_strings(v: &Vec<String>) -> (copy: Vec<String>)
    ensures
        string_views(copy@) == string_views(v@),
{
    let mut copy: Vec<String> = Vec::new();
    let mut i: usize = 0;
    while i < v.len()
        invariant
            i <= v@.len(),
            string_views(copy@) == string_views(v@.take(i as int)),
        decreases v@.len() - i,
    {
        copy.push(v[i].clone());
        proof {
            assert(string_views(v@.take(i + 1)) =~= string_views(v@.take(i as int)).push(
                v@[i as int]@,
            ));
            assert(string_views(copy@) =~= string_views(copy@.drop_last()).push(copy@.last()@));
        }
        i += 1;
    }
    proof {
        assert(v@.take(v@.len() as int) =~= v@);
    }
    copy
}

/// Appends each line, preceded by the file's path and a colon.
fn push_prefixed(found: &mut Vec<String>, file: &str, lines: &Vec<&str>)
    ensures
        string_views(final(found)@) == string_views(old(found)@) + prefixed(file@, views(lines@)),
{
    let mut i: usize = 0;
    proof {
        assert(prefixed(file@, views(lines@.take(0))) =~= Seq::<Seq<char>>::empty());
        assert(string_views(found@) =~= string_views(old(found)@) + prefixed(
            file@,
            views(lines@.take(0)),
        ));
    }
    while i < lines.len()
        invariant
            i <= lines@.len(),
            string_views(found@) == string_views(old(found)@) + prefixed(
                file@,
                views(lines@.take(i as int)),
            ),
        decreases lines@.len() - i,
    {
        let ghost before = string_views(found@);
        let mut entry = file.to_owned();
        entry.append(":");
        entry.append(lines[i]);
        proof {
            reveal_strlit(":");
            assert(entry@ =~= file@ + seq![':'] + lines@[i as int]@);
        }
        found.push(entry);
        proof {
            assert(string_views(found@) =~= before.push(entry@));
            assert(prefixed(file@, views(lines@.take(i + 1))) =~= prefixed(
                file@,
                views(lines@.take(i as int)),
            ).push(file@ + seq![':'] + lines@[i as int]@));
            assert(string_views(found@) =~= string_views(found@.drop_last()).push(found@.last()@));
        }
        i += 1;
    }
    proof {
        assert(lines@.take(lines@.len() as int) =~= lines@);
    }
}

/* searching one file */

/// Searches the text that reading `path` gave for `pattern`, case ignored
/// as `ignore_case` says.
fn search_file_matching(pattern: &str, path: &str, read: Result<String, String>, ignore_case: bool) -> (r:
    Result<Vec<String>, String>)
    ensures
        outcome_view(r) == file_outcome(pattern@, path@, read_view(read), ignore_case),
{
    match read {
        Ok(text) => {
            let lines = crate::matching::matches(pattern, text.as_str(), ignore_case);
            Ok(owned_lines(&lines))
        },
        Err(reason) => Err(failure(path, reason.as_str())),
    }
}

/// Searches a file for `pattern`, from what reading the file at `path` as
/// text gave: its lines that contain `pattern`, or the failure to read it
/// prefixed with the path.
pub fn search_file(pattern: &str, path: &str, read: Result<String, String>) -> (r: Result<
    Vec<String>,
    String,
>)
    ensures
        outcome_view(r) == file_outcome(pattern@, path@, read_view(read), false),
{
    search_file_matching(pattern, path, read, false)
}

/// As `search_file`, with ASCII case differences ignored.
pub fn search_file_ignoring_case(pattern: &str, path: &str, read: Result<String, String>) -> (r:
    Result<Vec<String>, String>)
    ensures
        outcome_view(r) == file_outcome(pattern@, path@, read_view(read), true),
{
    search_file_matching(pattern, path, read, true)
}


/* searching a path */

/// Where a search stands, as texts.
pub enum Stage {
    /// Waiting for the metadata of the searched path.
    Stat,
    /// The path is not a directory: waiting for its text.
    Plain,
    /// Walking the tree: waiting for the listing of `dir`. `pending` holds
    /// the entries still to be looked at, the next one last; `files` the
    /// files found so far, in the order they will be read.
    Walk { dir: Seq<char>, pending: Seq<Entry>, files: Seq<Seq<char>> },
    /// Reading the files found: waiting for the text of `files[next]`;
    /// `found` holds the matches of the files before it.
    Read { files: Seq<Seq<char>>, next: int, found: Seq<Seq<char>> },
    /// Finished, with the matches or the first failure.
    Done(Result<Seq<Seq<char>>, Seq<char>>),
}

/// A search as texts: what it looks for, where, and where it stands.
pub struct SearchView {
    pub pattern: Seq<char>,
    pub ignore_case: bool,
    pub root: Seq<char>,
    pub stage: Stage,
}

/// What a search asks for next, as texts.
pub enum Wanted {
    Metadata(Seq<char>),
    ReadFile(Seq<char>),
    ReadDir(Seq<char>),
    Finished(Result<Seq<Seq<char>>, Seq<char>>),
}

/// A progress report as texts.
pub open spec fn progress_view(p: Progress) -> Wanted {
    match p {
        Progress::Pending(Request::Metadata(path)) => Wanted::Metadata(path@),
        Progress::Pending(Request::ReadFile(path)) => Wanted::ReadFile(path@),
        Progress::Pending(Request::ReadDir(path)) => Wanted::ReadDir(path@),
        Progress::Finished(r) => Wanted::Finished(outcome_view(r)),
    }
}

/// A stage that reading can stand in: a file to read exists.
pub open spec fn stage_wf(s: Stage) -> bool {
    match s {
        Stage::Read { files, next, found } => 0 <= next < files.len(),
        _ => true,
    }
}

/// A fresh search of `root` for `pattern`.
pub open spec fn start(pattern: Seq<char>, root: Seq<char>, ignore_case: bool) -> SearchView {
    SearchView { pattern, ignore_case, root, stage: Stage::Stat }
}

/// The same search at another stage.
pub open spec fn with_stage(v: SearchView, stage: Stage) -> SearchView {
    SearchView { pattern: v.pattern, ignore_case: v.ignore_case, root: v.root, stage }
}

/// What a search asks for: the metadata or the text of the searched path,
/// the listing of the directory being walked, the text of the next file
/// found, or nothing more once it is finished.
pub open spec fn wanted(v: SearchView) -> Wanted {
    match v.stage {
        Stage::Stat => Wanted::Metadata(v.root),
        Stage::Plain => Wanted::ReadFile(v.root),
        Stage::Walk { dir, pending, files } => Wanted::ReadDir(dir),
        Stage::Read { files, next, found } => Wanted::ReadFile(files[next]),
        Stage::Done(r) => Wanted::Finished(r),
    }
}

/// Once the walk is over: read the files found, or finish with no match
/// when there is none.
pub open spec fn begin_reading(files: Seq<Seq<char>>) -> Stage {
    if files.len() == 0 {
        Stage::Done(Ok(Seq::empty()))
    } else {
        Stage::Read { files, next: 0, found: Seq::empty() }
    }
}

/// Looks at the pending entries, the last first, until one is a directory
/// to list: a file is added to the files found, an entry of another kind is
/// passed over, and an entry whose kind could not be read ends the search
/// with that failure.
pub open spec fn settle(pending: Seq<Entry>, files: Seq<Seq<char>>) -> Stage
    decreases pending.len(),
{
    if pending.len() == 0 {
        begin_reading(files)
    } else {
        let e = pending.last();
        match e.kind {
            Err(reason) => Stage::Done(Err(failure_message(e.path@, reason@))),
            Ok(EntryKind::Dir) => Stage::Walk { dir: e.path@, pending: pending.drop_last(), files },
            Ok(EntryKind::File) => settle(pending.drop_last(), files.push(e.path@)),
            Ok(EntryKind::Other) => settle(pending.drop_last(), files),
        }
    }
}

/// The first entry of a listing that failed to be read, if any.
pub open spec fn listing_failure(list: Seq<Result<Entry, String>>) -> Option<Seq<char>>
    decreases list.len(),
{
    if list.len() == 0 {
        None
    } else {
        match list[0] {
            Err(reason) => Some(reason@),
            Ok(_) => listing_failure(list.drop_first()),
        }
    }
}

/// The entries of a listing that were read, in order.
pub open spec fn listed(list: Seq<Result<Entry, String>>) -> Seq<Entry>
    decreases list.len(),
{
    if list.len() == 0 {
        Seq::empty()
    } else {
        let r = listed(list.drop_last());
        match list.last() {
            Ok(e) => r.push(e),
            Err(_) => r,
        }
    }
}

/// The key by which entries are ordered: the UTF-8 bytes of their path.
pub open spec fn by_path() -> spec_fn(Entry) -> Seq<u8> {
    |e: Entry| encode_utf8(e.path@)
}

/// After the text of a file was searched: read the next file, or finish
/// with all matches when it was the last.
pub open spec fn after_read(files: Seq<Seq<char>>, next: int, found: Seq<Seq<char>>) -> Stage {
    if next >= files.len() {
        Stage::Done(Ok(found))
    } else {
        Stage::Read { files, next, found }
    }
}

/// How a search goes on from what the operation it asked for gave. A reply
/// to another operation than the one asked for changes nothing, nor does
/// any reply once the search is finished.
pub open spec fn step(v: SearchView, reply: Reply) -> SearchView {
    match v.stage {
        Stage::Stat => match reply {
            Reply::Metadata(Err(reason)) => with_stage(
                v,
                Stage::Done(Err(failure_message(v.root, reason@))),
            ),
            Reply::Metadata(Ok(is_dir)) => with_stage(
                v,
                if is_dir {
                    Stage::Walk { dir: v.root, pending: Seq::empty(), files: Seq::empty() }
                } else {
                    Stage::Plain
                },
            ),
            _ => v,
        },
        Stage::Plain => match reply {
            Reply::Contents(read) => with_stage(
                v,
                Stage::Done(file_outcome(v.pattern, v.root, read_view(read), v.ignore_case)),
            ),
            _ => v,
        },
        Stage::Walk { dir, pending, files } => match reply {
            Reply::Listing(Err(reason)) => with_stage(
                v,
                Stage::Done(Err(failure_message(dir, reason@))),
            ),
            Reply::Listing(Ok(list)) => match listing_failure(list@) {
                Some(reason) => with_stage(v, Stage::Done(Err(failure_message(dir, reason)))),
                None => with_stage(
                    v,
                    settle(pending + sort_by_key(listed(list@), by_path()).reverse(), files),
                ),
            },
            _ => v,
        },
        Stage::Read { files, next, found } => match reply {
            Reply::Contents(Err(reason)) => with_stage(
                v,
                Stage::Done(Err(failure_message(files[next], reason@))),
            ),
            Reply::Contents(Ok(text)) => with_stage(
                v,
                after_read(
                    files,
                    next + 1,
                    found + prefixed(
                        files[next],
                        matching_text_lines(text@, v.pattern, v.ignore_case),
                    ),
                ),
            ),
            _ => v,
        },
        Stage::Done(_) => v,
    }
}


/* the walk, executed */

/// Inserts an entry into entries sorted by path, after those whose path is
/// not greater.
fn insert_entry(sorted: &mut Vec<Entry>, e: Entry)
    ensures
        final(sorted)@ == insert_by_key(old(sorted)@, e, by_path()),
{
    let ghost s0 = sorted@;
    let ghost key = by_path();
    let mut pos = sorted.len();
    proof {
        assert(s0.take(pos as int) =~= s0);
        assert(s0.skip(pos as int) =~= Seq::<Entry>::empty());
        assert(insert_by_key(s0, e, key) =~= insert_by_key(s0.take(pos as int), e, key) + s0.skip(
            pos as int,
        ));
    }
    while pos > 0 && !bytes_leq(sorted[pos - 1].path.as_str().as_bytes(), e.path.as_str().as_bytes())
        invariant
            sorted@ == s0,
            key == by_path(),
            pos <= s0.len(),
            insert_by_key(s0, e, key) == insert_by_key(s0.take(pos as int), e, key) + s0.skip(
                pos as int,
            ),
        decreases pos,
    {
        proof {
            let t = s0.take(pos as int);
            assert(t.drop_last() =~= s0.take(pos - 1));
            assert(t.last() == s0[pos - 1]);
            assert(s0.skip(pos - 1) =~= seq![s0[pos - 1]] + s0.skip(pos as int));
            assert(insert_by_key(t, e, key) == insert_by_key(s0.take(pos - 1), e, key).push(
                s0[pos - 1],
            ));
            assert(insert_by_key(s0.take(pos - 1), e, key).push(s0[pos - 1]) + s0.skip(pos as int)
                =~= insert_by_key(s0.take(pos - 1), e, key) + s0.skip(pos - 1));
        }
        pos -= 1;
    }
    proof {
        let t = s0.take(pos as int);
        if pos > 0 {
            assert(t.last() == s0[pos - 1]);
            assert(insert_by_key(t, e, key) == t.push(e));
        } else {
            assert(insert_by_key(t, e, key) =~= seq![e]);
        }
        assert(t.push(e) + s0.skip(pos as int) =~= s0.insert(pos as int, e));
    }
    sorted.insert(pos, e);
}

/// The entries of a listing sorted by path, or the first failure of the
/// listing prefixed with the directory's path.
fn take_listing(dir: &str, list: Vec<Result<Entry, String>>) -> (r: Result<Vec<Entry>, String>)
    ensures
        match listing_failure(list@) {
            Some(reason) => r matches Err(m) && m@ == failure_message(dir@, reason),
            None => r matches Ok(sorted) && sorted@ == sort_by_key(listed(list@), by_path()),
        },
{
    let ghost orig = list@;
    let n = list.len();
    let mut remaining = list;
    let mut rev: Vec<Result<Entry, String>> = Vec::new();
    while remaining.len() > 0
        invariant
            remaining@.len() <= orig.len(),
            remaining@ == orig.take(remaining@.len() as int),
            rev@ == orig.skip(remaining@.len() as int).reverse(),
            n == orig.len(),
        decreases remaining@.len(),
    {
        let ghost len = remaining@.len();
        let item = remaining.pop().unwrap();
        rev.push(item);
        proof {
            assert(remaining@ =~= orig.take(len - 1));
            assert(rev@ =~= orig.skip(len - 1).reverse());
        }
    }
    let ghost key = by_path();
    let mut sorted: Vec<Entry> = Vec::new();
    let mut k: usize = 0;
    proof {
        assert(orig.skip(0) =~= orig);
        assert(orig.take(0) =~= Seq::<Result<Entry, String>>::empty());
    }
    while k < n
        invariant
            orig == list@,
            n == orig.len(),
            k <= n,
            key == by_path(),
            rev@ == orig.skip(k as int).reverse(),
            listing_failure(orig) == listing_failure(orig.skip(k as int)),
            sorted@ == sort_by_key(listed(orig.take(k as int)), key),
        decreases n - k,
    {
        let ghost before = rev@;
        let item = rev.pop().unwrap();
        proof {
            assert(item == orig[k as int]);
            assert(orig.skip(k as int)[0] == orig[k as int]);
            assert(orig.skip(k as int).drop_first() =~= orig.skip(k + 1));
            assert(rev@ =~= orig.skip(k + 1).reverse());
            assert(orig.take(k + 1).drop_last() =~= orig.take(k as int));
            assert(orig.take(k + 1).last() == orig[k as int]);
        }
        let ghost rest = orig.skip(k as int);
        match item {
            Err(reason) => {
                proof {
                    assert(rest.len() > 0);
                    assert(listing_failure(rest) == Some(reason@));
                }
                let m = failure(dir, reason.as_str());
                proof {
                    assert(listing_failure(orig) == Some(reason@));
                    assert(m@ == failure_message(dir@, reason@));
                }
                return Err(m);
            },
            Ok(e) => {
                proof {
                    assert(rest.len() > 0);
                    assert(listing_failure(rest) == listing_failure(orig.skip(k + 1)));
                    let t = orig.take(k + 1);
                    assert(listed(t) == listed(orig.take(k as int)).push(e));
                    let s = listed(orig.take(k as int));
                    assert(s.push(e).drop_last() =~= s);
                    assert(sort_by_key(s.push(e), key) == insert_by_key(sort_by_key(s, key), e, key));
                }
                insert_entry(&mut sorted, e);
            },
        }
        k += 1;
    }
    proof {
        assert(orig.take(n as int) =~= orig);
        assert(orig.skip(n as int) =~= Seq::<Result<Entry, String>>::empty());
    }
    Ok(sorted)
}

/// Pushes the entries onto `pending` last first, so that the first one is
/// looked at next.
fn push_reversed(pending: &mut Vec<Entry>, sorted: Vec<Entry>)
    ensures
        final(pending)@ == old(pending)@ + sorted@.reverse(),
{
    let ghost orig = sorted@;
    let mut rest = sorted;
    proof {
        assert(orig.take(orig.len() as int) =~= orig);
        assert(old(pending)@ + orig.skip(orig.len() as int).reverse() =~= old(pending)@);
    }
    while rest.len() > 0
        invariant
            rest@.len() <= orig.len(),
            rest@ == orig.take(rest@.len() as int),
            pending@ == old(pending)@ + orig.skip(rest@.len() as int).reverse(),
        decreases rest@.len(),
    {
        let ghost len = rest@.len();
        let e = rest.pop().unwrap();
        pending.push(e);
        proof {
            assert(rest@ =~= orig.take(len - 1));
            assert(pending@ =~= old(pending)@ + orig.skip(len - 1).reverse());
        }
    }
    proof {
        assert(orig.skip(0) =~= orig);
    }
}

/// Where the search stands, with owned data.
enum Phase {
    Stat,
    Plain,
    Walk { dir: String, pending: Vec<Entry>, files: Vec<String> },
    Read { files: Vec<String>, next: usize, found: Vec<String> },
    Done(Result<Vec<String>, String>),
}

spec fn phase_view(p: Phase) -> Stage {
    match p {
        Phase::Stat => Stage::Stat,
        Phase::Plain => Stage::Plain,
        Phase::Walk { dir, pending, files } => Stage::Walk {
            dir: dir@,
            pending: pending@,
            files: string_views(files@),
        },
        Phase::Read { files, next, found } => Stage::Read {
            files: string_views(files@),
            next: next as int,
            found: string_views(found@),
        },
        Phase::Done(r) => Stage::Done(outcome_view(r)),
    }
}

/// Reads the files found, or finishes when there is none.
fn begin_reading_files(files: Vec<String>) -> (p: Phase)
    ensures
        phase_view(p) == begin_reading(string_views(files@)),
        stage_wf(phase_view(p)),
{
    let none: Vec<String> = Vec::new();
    proof {
        assert(string_views(none@) =~= Seq::<Seq<char>>::empty());
    }
    if files.len() == 0 {
        Phase::Done(Ok(none))
    } else {
        Phase::Read { files, next: 0, found: none }
    }
}

/// Looks at the pending entries until one is a directory to list.
fn settle_pending(pending: Vec<Entry>, files: Vec<String>) -> (p: Phase)
    ensures
        phase_view(p) == settle(pending@, string_views(files@)),
        stage_wf(phase_view(p)),
{
    let ghost goal = settle(pending@, string_views(files@));
    let mut todo = pending;
    let mut found = files;
    while todo.len() > 0
        invariant
            settle(todo@, string_views(found@)) == goal,
            goal == settle(pending@, string_views(files@)),
        decreases todo@.len(),
    {
        let ghost p0 = todo@;
        let ghost f0 = string_views(found@);
        let e = todo.pop().unwrap();
        proof {
            assert(todo@ =~= p0.drop_last());
            assert(e == p0.last());
        }
        let Entry { path, kind } = e;
        match kind {
            Err(reason) => {
                proof {
                    assert(goal == Stage::Done(Err(failure_message(path@, reason@))));
                }
                let m = failure(path.as_str(), reason.as_str());
                proof {
                    assert(phase_view(Phase::Done(Err(m))) == goal);
                }
                return Phase::Done(Err(m));
            },
            Ok(EntryKind::Dir) => {
                proof {
                    assert(goal == Stage::Walk { dir: path@, pending: todo@, files: f0 });
                }
                return Phase::Walk { dir: path, pending: todo, files: found };
            },
            Ok(EntryKind::File) => {
                let ghost pv = path@;
                found.push(path);
                proof {
                    assert(string_views(found@) =~= f0.push(pv));
                }
            },
            Ok(EntryKind::Other) => {},
        }
    }
    begin_reading_files(found)
}

/// A search of a file or of a directory tree for a literal pattern. It asks
/// for one filesystem operation at a time (`progress`) and goes on from what
/// that operation gave (`answer`), until it is finished.
pub struct Search {
    pattern: String,
    ignore_case: bool,
    root: String,
    phase: Phase,
}

impl Search {
    #[verifier::type_invariant]
    spec fn well_formed(self) -> bool {
        stage_wf(phase_view(self.phase))
    }
}

impl View for Search {
    type V = SearchView;

    closed spec fn view(&self) -> SearchView {
        SearchView {
            pattern: self.pattern@,
            ignore_case: self.ignore_case,
            root: self.root@,
            stage: phase_view(self.phase),
        }
    }
}

impl Search {
    /// A fresh search of `path` for `pattern`.
    fn new(pattern: &str, path: &str, ignore_case: bool) -> (s: Search)
        ensures
            s@ == start(pattern@, path@, ignore_case),
    {
        Search {
            pattern: pattern.to_owned(),
            ignore_case,
            root: path.to_owned(),
            phase: Phase::Stat,
        }
    }

    /// The operation the search needs next, or its result once finished.
    pub fn progress(&self) -> (p: Progress)
        ensures
            progress_view(p) == wanted(self@),
    {
        proof {
            use_type_invariant(self);
        }
        match &self.phase {
            Phase::Stat => Progress::Pending(Request::Metadata(self.root.clone())),
            Phase::Plain => Progress::Pending(Request::ReadFile(self.root.clone())),
            Phase::Walk { dir, pending, files } => Progress::Pending(Request::ReadDir(dir.clone())),
            Phase::Read { files, next, found } => Progress::Pending(
                Request::ReadFile(files[*next].clone()),
            ),
            Phase::Done(r) => Progress::Finished(
                match r {
                    Ok(v) => Ok(copy_strings(v)),
                    Err(e) => Err(e.clone()),
                },
            ),
        }
    }

    /// The search gone on from what the operation it asked for gave.
    pub fn answer(self, reply: Reply) -> (next: Search)
        ensures
            next@ == step(self@, reply),
            stage_wf(next@.stage),
    {
        proof {
            use_type_invariant(&self);
        }
        let ghost v = self@;
        let Search { pattern, ignore_case, root, phase } = self;
        proof {
            assert(stage_wf(phase_view(phase)));
        }
        let phase = match phase {
            Phase::Stat => match reply {
                Reply::Metadata(Err(reason)) => Phase::Done(
                    Err(failure(root.as_str(), reason.as_str())),
                ),
                Reply::Metadata(Ok(is_dir)) => {
                    if is_dir {
                        let files: Vec<String> = Vec::new();
                        proof {
                            assert(string_views(files@) =~= Seq::<Seq<char>>::empty());
                        }
                        Phase::Walk { dir: root.clone(), pending: Vec::new(), files }
                    } else {
                        Phase::Plain
                    }
                },
                _ => Phase::Stat,
            },
            Phase::Plain => match reply {
                Reply::Contents(read) => Phase::Done(
                    search_file_matching(pattern.as_str(), root.as_str(), read, ignore_case),
                ),
                _ => Phase::Plain,
            },
            Phase::Walk { dir, pending, files } => match reply {
                Reply::Listing(Err(reason)) => Phase::Done(
                    Err(failure(dir.as_str(), reason.as_str())),
                ),
                Reply::Listing(Ok(list)) => match take_listing(dir.as_str(), list) {
                    Err(m) => Phase::Done(Err(m)),
                    Ok(sorted) => {
                        let mut pending = pending;
                        push_reversed(&mut pending, sorted);
                        settle_pending(pending, files)
                    },
                },
                _ => Phase::Walk { dir, pending, files },
            },
            Phase::Read { files, next, found } => {
                proof {
                    assert(string_views(files@).len() == files@.len());
                    assert(next < files@.len());
                }
                match reply {
                Reply::Contents(Err(reason)) => Phase::Done(
                    Err(failure(files[next].as_str(), reason.as_str())),
                ),
                Reply::Contents(Ok(text)) => {
                    let lines = crate::matching::matches(pattern.as_str(), text.as_str(), ignore_case);
                    let mut found = found;
                    push_prefixed(&mut found, files[next].as_str(), &lines);
                    let count = files.len();
                    if next + 1 >= count {
                        Phase::Done(Ok(found))
                    } else {
                        Phase::Read { files, next: next + 1, found }
                    }
                },
                _ => Phase::Read { files, next, found },
            }},
            Phase::Done(r) => Phase::Done(r),
        };
        Search { pattern, ignore_case, root, phase }
    }
}

/// A search of `path` for `pattern`: a plain search when `path` is a file;
/// a recursive descent when it is a directory, each match then written as
/// the file's path, a colon and the line.
pub fn search_path(pattern: &str, path: &str) -> (s: Search)
    ensures
        s@ == start(pattern@, path@, false),
{
    Search::new(pattern, path, false)
}

/// As `search_path`, with ASCII case differences ignored.
pub fn search_path_ignoring_case(pattern: &str, path: &str) -> (s: Search)
    ensures
        s@ == start(pattern@, path@, true),
{
    Search::new(pattern, path, true)
}

/* walking a tree alone */

/// A fresh walk of the tree under `root`: its listing comes first.
pub open spec fn walk_start(root: Seq<char>) -> SearchView {
    SearchView {
        pattern: Seq::empty(),
        ignore_case: false,
        root,
        stage: Stage::Walk { dir: root, pending: Seq::empty(), files: Seq::empty() },
    }
}

/// How a walk moves: as the walk of a search, until the files are all
/// found or a failure ends it.
pub open spec fn walk_step() -> spec_fn(SearchView, Reply) -> SearchView {
    |v: SearchView, r: Reply|
        if v.stage is Walk {
            step(v, r)
        } else {
            v
        }
}

/// What a walk asks for: the listing of the directory being walked; or,
/// once over, the files found, in the order found, or the first failure.
pub open spec fn walk_wanted(v: SearchView) -> Wanted {
    match v.stage {
        Stage::Read { files, next, found } => Wanted::Finished(Ok(files)),
        _ => wanted(v),
    }
}

/// A walk of a directory tree that lists every regular file under it,
/// descending into subdirectories, in path order. An entry is classified by
/// what it is itself, so a symbolic link is neither a file nor a directory
/// and is skipped. It asks for one listing at a time (`progress`) and goes
/// on from what that listing gave (`answer`).
pub struct Walk {
    root: String,
    phase: Phase,
}

impl Walk {
    #[verifier::type_invariant]
    spec fn well_formed(self) -> bool {
        stage_wf(phase_view(self.phase))
    }
}

impl View for Walk {
    type V = SearchView;

    closed spec fn view(&self) -> SearchView {
        SearchView {
            pattern: Seq::empty(),
            ignore_case: false,
            root: self.root@,
            stage: phase_view(self.phase),
        }
    }
}

impl Walk {
    /// The listing the walk needs next, or the files once it is over.
    pub fn progress(&self) -> (p: Progress)
        ensures
            progress_view(p) == walk_wanted(self@),
    {
        proof {
            use_type_invariant(self);
        }
        match &self.phase {
            Phase::Stat => Progress::Pending(Request::Metadata(self.root.clone())),
            Phase::Plain => Progress::Pending(Request::ReadFile(self.root.clone())),
            Phase::Walk { dir, pending, files } => Progress::Pending(Request::ReadDir(dir.clone())),
            Phase::Read { files, next, found } => Progress::Finished(Ok(copy_strings(files))),
            Phase::Done(r) => Progress::Finished(
                match r {
                    Ok(v) => Ok(copy_strings(v)),
                    Err(e) => Err(e.clone()),
                },
            ),
        }
    }

    /// The walk gone on from what the listing it asked for gave.
    pub fn answer(self, reply: Reply) -> (next: Walk)
        ensures
            next@ == walk_step()(self@, reply),
    {
        proof {
            use_type_invariant(&self);
        }
        let Walk { root, phase } = self;
        let phase = match phase {
            Phase::Walk { dir, pending, files } => match reply {
                Reply::Listing(Err(reason)) => Phase::Done(
                    Err(failure(dir.as_str(), reason.as_str())),
                ),
                Reply::Listing(Ok(list)) => match take_listing(dir.as_str(), list) {
                    Err(m) => Phase::Done(Err(m)),
                    Ok(sorted) => {
                        let mut pending = pending;
                        push_reversed(&mut pending, sorted);
                        settle_pending(pending, files)
                    },
                },
                _ => Phase::Walk { dir, pending, files },
            },
            other => other,
        };
        Walk { root, phase }
    }
}

/// A walk of the directory tree under `root`, listing every regular file
/// under it.
pub fn walk_files(root: &str) -> (w: Walk)
    ensures
        w@ == walk_start(root@),
{
    let files: Vec<String> = Vec::new();
    proof {
        assert(string_views(files@) =~= Seq::<Seq<char>>::empty());
    }
    Walk { root: root.to_owned(), phase: Phase::Walk { dir: root.to_owned(), pending: Vec::new(), files } }
}

} // verus!
