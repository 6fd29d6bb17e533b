use std::collections::BTreeMap;

use lib::{
    run, search_file, search_file_ignoring_case, search_path, search_path_ignoring_case,
    walk_files, Entry, EntryKind, Exit, Progress, Reply, Request, Run, Search, Step, Walk,
};

const MISSING: &str = "No such file or directory (os error 2)";

/// A filesystem held in memory: files with their text, directories, and
/// symbolic links to other paths.
#[derive(Clone)]
enum Node {
    File(String),
    Dir,
    Link(String),
    Unreadable,
}

struct Fs {
    nodes: BTreeMap<String, Node>,
    /// Lists directory entries last name first, so that the order a search
    /// visits them in comes from the search and not from the listing.
    reversed_listing: bool,
}

impl Fs {
    fn new() -> Fs {
        Fs { nodes: BTreeMap::new(), reversed_listing: true }
    }

    fn dir(&mut self, path: &str) {
        self.nodes.insert(path.to_string(), Node::Dir);
    }

    fn file(&mut self, path: &str, text: &str) {
        self.nodes.insert(path.to_string(), Node::File(text.to_string()));
    }

    fn link(&mut self, path: &str, target: &str) {
        self.nodes.insert(path.to_string(), Node::Link(target.to_string()));
    }

    fn unreadable(&mut self, path: &str) {
        self.nodes.insert(path.to_string(), Node::Unreadable);
    }

    /// The path with every symbolic link along it replaced by its target.
    fn canonical(&self, path: &str) -> String {
        let mut built = String::new();
        for part in path.split('/').filter(|p| !p.is_empty()) {
            built = format!("{}/{}", built, part);
            while let Some(Node::Link(target)) = self.nodes.get(&built) {
                built = target.clone();
            }
        }
        built
    }

    fn resolve(&self, path: &str) -> Option<Node> {
        self.nodes.get(&self.canonical(path)).cloned()
    }

    fn reply(&self, request: &Request) -> Reply {
        match request {
            Request::Metadata(path) => Reply::Metadata(match self.resolve(path) {
                Some(Node::Dir) => Ok(true),
                Some(_) => Ok(false),
                None => Err(MISSING.to_string()),
            }),
            Request::ReadFile(path) => Reply::Contents(match self.resolve(path) {
                Some(Node::File(text)) => Ok(text),
                Some(Node::Dir) => Err("Is a directory (os error 21)".to_string()),
                Some(_) => Err("Permission denied (os error 13)".to_string()),
                None => Err(MISSING.to_string()),
            }),
            Request::ReadDir(path) => Reply::Listing(match self.resolve(path) {
                Some(Node::Dir) => {
                    let real = self.canonical(path);
                    let prefix = format!("{}/", real.trim_end_matches('/'));
                    let shown = path.trim_end_matches('/');
                    let mut entries: Vec<Result<Entry, String>> = Vec::new();
                    for (p, node) in &self.nodes {
                        if let Some(name) = p.strip_prefix(&prefix) {
                            if !name.is_empty() && !name.contains('/') {
                                let kind = match node {
                                    Node::Dir => EntryKind::Dir,
                                    Node::File(_) => EntryKind::File,
                                    _ => EntryKind::Other,
                                };
                                let entry_path = format!("{}/{}", shown, name);
                                entries.push(Ok(Entry { path: entry_path, kind: Ok(kind) }));
                            }
                        }
                    }
                    if self.reversed_listing {
                        entries.reverse();
                    }
                    Ok(entries)
                }
                Some(Node::Unreadable) => Err("Permission denied (os error 13)".to_string()),
                Some(_) => Err("Not a directory (os error 20)".to_string()),
                None => Err(MISSING.to_string()),
            }),
        }
    }
}

fn drive(mut search: Search, fs: &Fs) -> Result<Vec<String>, String> {
    loop {
        match search.progress() {
            Progress::Finished(result) => return result,
            Progress::Pending(request) => {
                let reply = fs.reply(&request);
                search = search.answer(reply);
            }
        }
    }
}

fn drive_walk(mut walk: Walk, fs: &Fs) -> Result<Vec<String>, String> {
    loop {
        match walk.progress() {
            Progress::Finished(result) => return result,
            Progress::Pending(request) => {
                let reply = fs.reply(&request);
                walk = walk.answer(reply);
            }
        }
    }
}

fn drive_run(mut r: Run, fs: &Fs) -> Exit {
    loop {
        match r.progress() {
            Step::Exit(exit) => return exit,
            Step::Pending(request) => {
                let reply = fs.reply(&request);
                r = r.answer(reply);
            }
        }
    }
}

fn args(words: &[&str]) -> Vec<String> {
    words.iter().map(|w| w.to_string()).collect()
}

/* searching a file */

#[test]
fn search_file_reads_and_filters_a_real_file() {
    let read = Ok("foo\nbar foo\nbaz\n".to_string());
    let result = search_file("foo", "/tmp/rgrep-test-file", read).unwrap();
    assert_eq!(result, vec!["foo", "bar foo"]);
}

#[test]
fn search_file_errors_on_a_missing_file() {
    let result = search_file("foo", "/no/such/path/rgrep-missing-file", Err(MISSING.to_string()));
    assert!(result.is_err());
}

#[test]
fn search_file_error_names_the_path_and_the_reason() {
    let result = search_file("foo", "/no/such/file", Err(MISSING.to_string()));
    assert_eq!(
        result,
        Err("/no/such/file: No such file or directory (os error 2)".to_string())
    );
}

#[test]
fn search_file_ignoring_case_reads_and_filters_a_real_file() {
    let read = Ok("Foo\nbar FOO\nbaz\n".to_string());
    let result = search_file_ignoring_case("foo", "/tmp/rgrep-test-file", read).unwrap();
    assert_eq!(result, vec!["Foo", "bar FOO"]);
}

/* searching a path */

#[test]
fn search_path_asks_first_for_the_metadata_of_the_path() {
    let search = search_path("x", "/some/where");
    match search.progress() {
        Progress::Pending(Request::Metadata(path)) => assert_eq!(path, "/some/where"),
        other => panic!("unexpected {:?}", other),
    }
}

#[test]
fn search_path_searches_every_file_under_a_directory_and_prefixes_matches() {
    let mut fs = Fs::new();
    fs.dir("/t");
    fs.file("/t/one.txt", "foo\nbar\n");
    fs.dir("/t/sub");
    fs.file("/t/sub/two.txt", "foo again\nnothing here\n");
    let mut matches = drive(search_path("foo", "/t"), &fs).unwrap();
    matches.sort();
    let mut expected = vec!["/t/one.txt:foo".to_string(), "/t/sub/two.txt:foo again".to_string()];
    expected.sort();
    assert_eq!(matches, expected);
}

#[test]
fn search_path_is_empty_when_no_file_under_the_directory_matches() {
    let mut fs = Fs::new();
    fs.dir("/t");
    fs.file("/t/one.txt", "bar\n");
    assert!(drive(search_path("foo", "/t"), &fs).unwrap().is_empty());
}

#[test]
fn search_path_falls_back_to_plain_search_for_a_single_file() {
    let mut fs = Fs::new();
    fs.file("/tmp/f", "foo\nbar foo\nbaz\n");
    let result = drive(search_path("foo", "/tmp/f"), &fs).unwrap();
    assert_eq!(result, vec!["foo", "bar foo"]);
}

#[test]
fn search_path_errors_when_nothing_exists_at_all() {
    let fs = Fs::new();
    assert!(drive(search_path("foo", "/no/such/path/rgrep-missing-anything"), &fs).is_err());
}

#[test]
fn search_path_ignoring_case_searches_every_file_under_a_directory() {
    let mut fs = Fs::new();
    fs.dir("/t");
    fs.file("/t/one.txt", "Foo\nbar\n");
    fs.dir("/t/sub");
    fs.file("/t/sub/two.txt", "FOO again\nnothing here\n");
    let mut matches = drive(search_path_ignoring_case("foo", "/t"), &fs).unwrap();
    matches.sort();
    let mut expected = vec!["/t/one.txt:Foo".to_string(), "/t/sub/two.txt:FOO again".to_string()];
    expected.sort();
    assert_eq!(matches, expected);
}

#[test]
fn walk_visits_entries_in_sorted_order_depth_first() {
    let mut fs = Fs::new();
    fs.dir("/d");
    fs.file("/d/b.txt", "x b");
    fs.dir("/d/sub");
    fs.file("/d/sub/c.txt", "x c");
    fs.file("/d/a.txt", "x a");
    fs.file("/d/z.txt", "x z");
    let found = drive(search_path("x", "/d"), &fs).unwrap();
    assert_eq!(found, vec!["/d/a.txt:x a", "/d/b.txt:x b", "/d/sub/c.txt:x c", "/d/z.txt:x z"]);
}

#[test]
fn walk_order_compares_paths_byte_by_byte() {
    let mut fs = Fs::new();
    fs.dir("/d");
    fs.file("/d/a", "x");
    fs.file("/d/a.b", "x");
    fs.file("/d/B", "x");
    fs.file("/d/é", "x");
    let found = drive(search_path("x", "/d"), &fs).unwrap();
    assert_eq!(found, vec!["/d/B:x", "/d/a:x", "/d/a.b:x", "/d/é:x"]);
}

#[test]
fn walk_is_empty_for_an_empty_directory() {
    let mut fs = Fs::new();
    fs.dir("/empty");
    assert_eq!(drive(search_path("x", "/empty"), &fs), Ok(vec![]));
}

#[test]
fn walk_skips_symbolic_links() {
    let mut fs = Fs::new();
    fs.dir("/d");
    fs.file("/d/real.txt", "x real");
    fs.link("/d/loop", "/d");
    fs.link("/d/alias.txt", "/d/real.txt");
    let found = drive(search_path("x", "/d"), &fs).unwrap();
    assert_eq!(found, vec!["/d/real.txt:x real"]);
}

#[test]
fn walk_follows_a_link_given_as_the_root() {
    let mut fs = Fs::new();
    fs.dir("/d");
    fs.file("/d/f", "x");
    fs.link("/l", "/d");
    let found = drive(search_path("x", "/l"), &fs).unwrap();
    assert_eq!(found, vec!["/l/f:x"]);
}

#[test]
fn walk_reports_an_unreadable_subdirectory_by_its_path() {
    let mut fs = Fs::new();
    fs.dir("/d");
    fs.file("/d/a", "x");
    fs.unreadable("/d/locked");
    let search = search_path("x", "/d");
    // The unreadable node is listed as a directory.
    let search = search.answer(Reply::Metadata(Ok(true)));
    let listing = vec![
        Ok(Entry { path: "/d/locked".to_string(), kind: Ok(EntryKind::Dir) }),
        Ok(Entry { path: "/d/a".to_string(), kind: Ok(EntryKind::File) }),
    ];
    let search = search.answer(Reply::Listing(Ok(listing)));
    match search.progress() {
        Progress::Pending(Request::ReadDir(path)) => assert_eq!(path, "/d/locked"),
        other => panic!("unexpected {:?}", other),
    }
    let search = search.answer(fs.reply(&Request::ReadDir("/d/locked".to_string())));
    match search.progress() {
        Progress::Finished(result) => assert_eq!(
            result,
            Err("/d/locked: Permission denied (os error 13)".to_string())
        ),
        other => panic!("unexpected {:?}", other),
    }
}

#[test]
fn walk_reports_the_first_failed_entry_of_a_listing() {
    let search = search_path("x", "/d").answer(Reply::Metadata(Ok(true)));
    let listing = vec![
        Ok(Entry { path: "/d/b".to_string(), kind: Ok(EntryKind::File) }),
        Err("first".to_string()),
        Err("second".to_string()),
    ];
    match search.answer(Reply::Listing(Ok(listing))).progress() {
        Progress::Finished(result) => assert_eq!(result, Err("/d: first".to_string())),
        other => panic!("unexpected {:?}", other),
    }
}

#[test]
fn walk_reports_an_entry_whose_kind_cannot_be_read_in_path_order() {
    let search = search_path("x", "/d").answer(Reply::Metadata(Ok(true)));
    let listing = vec![
        Ok(Entry { path: "/d/c".to_string(), kind: Err("late".to_string()) }),
        Ok(Entry { path: "/d/a".to_string(), kind: Ok(EntryKind::File) }),
        Ok(Entry { path: "/d/b".to_string(), kind: Err("early".to_string()) }),
    ];
    match search.answer(Reply::Listing(Ok(listing))).progress() {
        Progress::Finished(result) => assert_eq!(result, Err("/d/b: early".to_string())),
        other => panic!("unexpected {:?}", other),
    }
}

#[test]
fn walk_reports_a_file_that_cannot_be_read() {
    let mut fs = Fs::new();
    fs.dir("/d");
    fs.file("/d/a", "x");
    let search = search_path("x", "/d");
    let search = search.answer(fs.reply(&Request::Metadata("/d".to_string())));
    let search = search.answer(fs.reply(&Request::ReadDir("/d".to_string())));
    let search = search.answer(Reply::Contents(Err("Permission denied (os error 13)".to_string())));
    match search.progress() {
        Progress::Finished(result) => {
            assert_eq!(result, Err("/d/a: Permission denied (os error 13)".to_string()))
        }
        other => panic!("unexpected {:?}", other),
    }
}

#[test]
fn a_reply_to_another_request_changes_nothing() {
    let search = search_path("x", "/d");
    let search = search.answer(Reply::Contents(Ok("x".to_string())));
    match search.progress() {
        Progress::Pending(Request::Metadata(path)) => assert_eq!(path, "/d"),
        other => panic!("unexpected {:?}", other),
    }
}

#[test]
fn a_finished_search_stays_finished() {
    let search = search_path("x", "/missing").answer(Reply::Metadata(Err(MISSING.to_string())));
    let search = search.answer(Reply::Metadata(Ok(true)));
    match search.progress() {
        Progress::Finished(result) => assert_eq!(
            result,
            Err("/missing: No such file or directory (os error 2)".to_string())
        ),
        other => panic!("unexpected {:?}", other),
    }
}

/* running the tool */

#[test]
fn run_prints_matching_lines_and_reports_success() {
    let mut fs = Fs::new();
    fs.file("/tmp/f", "hello\nworld\nhello world\n");
    let exit = drive_run(run(&args(&["hello", "/tmp/f"])), &fs);
    assert_eq!(exit.code, 0);
    assert_eq!(exit.stdout, "hello\nhello world\n");
    assert!(exit.stderr.is_empty());
}

#[test]
fn run_reports_no_match_with_exit_code_one_and_no_output() {
    let mut fs = Fs::new();
    fs.file("/tmp/f", "hello\nworld\n");
    let exit = drive_run(run(&args(&["xyz", "/tmp/f"])), &fs);
    assert_eq!(exit.code, 1);
    assert!(exit.stdout.is_empty());
}

#[test]
fn run_reports_exit_code_two_for_a_missing_file() {
    let fs = Fs::new();
    let exit = drive_run(run(&args(&["foo", "/no/such/path/rgrep-missing-file"])), &fs);
    assert_eq!(exit.code, 2);
    assert!(exit.stdout.is_empty());
    assert!(exit.stderr.starts_with("rgrep: /no/such/path/rgrep-missing-file:"));
}

#[test]
fn run_reports_usage_for_the_wrong_number_of_arguments() {
    let fs = Fs::new();
    let exit = drive_run(run(&["only-one".to_string()]), &fs);
    assert_eq!(exit.code, 2);
    assert!(exit.stdout.is_empty());
    assert_eq!(exit.stderr, "usage: rgrep <pattern> <file-or-directory>\n");
}

#[test]
fn run_reports_usage_for_no_arguments_at_all() {
    let fs = Fs::new();
    let exit = drive_run(run(&[]), &fs);
    assert_eq!(exit.code, 2);
    assert!(exit.stdout.is_empty());
    assert_eq!(exit.stderr, "usage: rgrep <pattern> <file-or-directory>\n");
}

#[test]
fn run_reports_usage_for_too_many_arguments() {
    let fs = Fs::new();
    let exit = drive_run(
        run(&["a".to_string(), "b".to_string(), "c".to_string()]),
        &fs,
    );
    assert_eq!(exit.code, 2);
    assert!(exit.stdout.is_empty());
    assert_eq!(exit.stderr, "usage: rgrep <pattern> <file-or-directory>\n");
}

#[test]
fn run_searches_a_directory_recursively_and_prefixes_each_matching_line() {
    let mut fs = Fs::new();
    fs.dir("/t");
    fs.file("/t/one.txt", "match here\nno\n");
    fs.dir("/t/sub");
    fs.file("/t/sub/two.txt", "also a match\n");
    let exit = drive_run(run(&args(&["match", "/t"])), &fs);
    assert_eq!(exit.code, 0);
    let mut lines: Vec<&str> = exit.stdout.lines().collect();
    lines.sort_unstable();
    let mut expected = vec!["/t/one.txt:match here", "/t/sub/two.txt:also a match"];
    expected.sort_unstable();
    assert_eq!(lines, expected);
    assert!(exit.stderr.is_empty());
}

#[test]
fn run_reports_no_match_for_a_directory_with_nothing_matching() {
    let mut fs = Fs::new();
    fs.dir("/t");
    fs.file("/t/one.txt", "nothing relevant\n");
    let exit = drive_run(run(&args(&["xyz", "/t"])), &fs);
    assert_eq!(exit.code, 1);
    assert!(exit.stdout.is_empty());
}

#[test]
fn run_with_i_flag_matches_case_insensitively() {
    let mut fs = Fs::new();
    fs.file("/tmp/f", "Hello\nWORLD\nhello world\n");
    let exit = drive_run(run(&args(&["-i", "hello", "/tmp/f"])), &fs);
    assert_eq!(exit.code, 0);
    assert_eq!(exit.stdout, "Hello\nhello world\n");
    assert!(exit.stderr.is_empty());
}

#[test]
fn run_without_i_flag_stays_case_sensitive() {
    let mut fs = Fs::new();
    fs.file("/tmp/f", "Hello\nhello\n");
    let exit = drive_run(run(&args(&["hello", "/tmp/f"])), &fs);
    assert_eq!(exit.code, 0);
    assert_eq!(exit.stdout, "hello\n");
}

#[test]
fn run_refuses_an_unknown_flag_and_names_it() {
    let fs = Fs::new();
    let exit = drive_run(run(&args(&["-x", "needle", "."])), &fs);
    assert_eq!(exit.code, 2);
    assert!(exit.stdout.is_empty());
    assert_eq!(exit.stderr, "rgrep: unknown flag: -x\n");
}

#[test]
fn run_refuses_a_lone_dash() {
    let exit = drive_run(run(&args(&["-", "needle", "."])), &Fs::new());
    assert_eq!(exit.code, 2);
    assert_eq!(exit.stderr, "rgrep: unknown flag: -\n");
}

#[test]
fn run_refuses_a_dash_argument_after_the_i_flag() {
    let mut fs = Fs::new();
    fs.file("/f", "a -x b\nnone\n");
    let exit = drive_run(run(&args(&["-i", "-x", "/f"])), &fs);
    assert_eq!(exit.code, 2);
    assert!(exit.stdout.is_empty());
    assert_eq!(exit.stderr, "rgrep: unknown flag: -x\n");
}

#[test]
fn run_refuses_a_repeated_i_flag_by_name() {
    let exit = drive_run(run(&args(&["-i", "-i", "a", "/f"])), &Fs::new());
    assert_eq!(exit.code, 2);
    assert_eq!(exit.stderr, "rgrep: unknown flag: -i\n");
}

#[test]
fn run_refuses_a_dash_after_the_i_flag_before_counting_arguments() {
    let exit = drive_run(run(&args(&["-i", "-v"])), &Fs::new());
    assert_eq!(exit.code, 2);
    assert_eq!(exit.stderr, "rgrep: unknown flag: -v\n");
}

#[test]
fn run_with_only_the_i_flag_reports_usage() {
    let exit = drive_run(run(&args(&["-i"])), &Fs::new());
    assert_eq!(exit.code, 2);
    assert_eq!(exit.stderr, "usage: rgrep <pattern> <file-or-directory>\n");
}

#[test]
fn run_asks_nothing_once_the_arguments_are_refused() {
    match run(&args(&["-q", "a", "b"])).progress() {
        Step::Exit(exit) => assert_eq!(exit.code, 2),
        Step::Pending(request) => panic!("unexpected {:?}", request),
    }
}

#[test]
fn walk_order_does_not_depend_on_the_listing_order() {
    let mut fs = Fs::new();
    fs.dir("/d");
    fs.file("/d/m", "x m");
    fs.dir("/d/k");
    fs.file("/d/k/q", "x q");
    fs.file("/d/k/b", "x b");
    fs.file("/d/c", "x c");
    fs.reversed_listing = true;
    let one = drive(search_path("x", "/d"), &fs).unwrap();
    fs.reversed_listing = false;
    let two = drive(search_path("x", "/d"), &fs).unwrap();
    assert_eq!(one, two);
    assert_eq!(one, vec!["/d/c:x c", "/d/k/b:x b", "/d/k/q:x q", "/d/m:x m"]);
}

#[test]
fn directory_search_keeps_the_order_of_lines_within_a_file() {
    let mut fs = Fs::new();
    fs.dir("/d");
    fs.file("/d/f", "x 1\ny\nx 2\r\nx 3");
    let found = drive(search_path("x", "/d"), &fs).unwrap();
    assert_eq!(found, vec!["/d/f:x 1", "/d/f:x 2", "/d/f:x 3"]);
}

#[test]
fn exit_codes_follow_the_grep_convention() {
    let mut fs = Fs::new();
    fs.file("/f", "yes
");
    assert_eq!(drive_run(run(&args(&["yes", "/f"])), &fs).code, 0);
    assert_eq!(drive_run(run(&args(&["no", "/f"])), &fs).code, 1);
    let failed = drive_run(run(&args(&["yes", "/nothing"])), &fs);
    assert_eq!(failed.code, 2);
    assert_eq!(failed.stderr, "rgrep: /nothing: No such file or directory (os error 2)\n");
}

#[test]
fn walk_reports_a_root_directory_that_cannot_be_listed() {
    let mut fs = Fs::new();
    fs.unreadable("/locked");
    let search = search_path("x", "/locked").answer(Reply::Metadata(Ok(true)));
    match search.progress() {
        Progress::Pending(Request::ReadDir(path)) => assert_eq!(path, "/locked"),
        other => panic!("unexpected {:?}", other),
    }
    let search = search.answer(fs.reply(&Request::ReadDir("/locked".to_string())));
    match search.progress() {
        Progress::Finished(result) => {
            assert_eq!(result, Err("/locked: Permission denied (os error 13)".to_string()))
        }
        other => panic!("unexpected {:?}", other),
    }
}

#[test]
fn walk_puts_a_subdirectory_before_names_that_extend_its_own() {
    let mut fs = Fs::new();
    fs.dir("/d");
    fs.dir("/d/a");
    fs.file("/d/a/z", "x inner");
    fs.file("/d/a-b", "x outer");
    let found = drive(search_path("x", "/d"), &fs).unwrap();
    assert_eq!(found, vec!["/d/a/z:x inner", "/d/a-b:x outer"]);
}

#[test]
fn walk_ends_alike_whatever_the_position_of_one_failed_entry() {
    let good = || Ok(Entry { path: "/d/a".to_string(), kind: Ok(EntryKind::File) });
    let bad = || Err("broken".to_string());
    let mut outcomes = Vec::new();
    for listing in [vec![good(), bad()], vec![bad(), good()]] {
        let search = search_path("x", "/d").answer(Reply::Metadata(Ok(true)));
        match search.answer(Reply::Listing(Ok(listing))).progress() {
            Progress::Finished(result) => outcomes.push(result),
            other => panic!("unexpected {:?}", other),
        }
    }
    assert_eq!(outcomes[0], Err("/d: broken".to_string()));
    assert_eq!(outcomes[0], outcomes[1]);
}

#[test]
fn searches_with_and_without_case_fail_alike() {
    let mut fs = Fs::new();
    fs.dir("/d");
    fs.file("/d/a", "x");
    fs.unreadable("/d/b");
    let search = search_path("x", "/d").answer(Reply::Metadata(Ok(true)));
    let listing = || {
        vec![
            Ok(Entry { path: "/d/a".to_string(), kind: Ok(EntryKind::File) }),
            Ok(Entry { path: "/d/b".to_string(), kind: Ok(EntryKind::File) }),
        ]
    };
    let exact = drive(search.answer(Reply::Listing(Ok(listing()))), &fs);
    let search = search_path_ignoring_case("X", "/d").answer(Reply::Metadata(Ok(true)));
    let caseless = drive(search.answer(Reply::Listing(Ok(listing()))), &fs);
    assert_eq!(exact, Err("/d/b: Permission denied (os error 13)".to_string()));
    assert_eq!(exact, caseless);
    let missing = drive(search_path("x", "/none"), &fs);
    assert_eq!(missing, drive(search_path_ignoring_case("X", "/none"), &fs));
    assert_eq!(
        search_file("x", "/f", Err(MISSING.to_string())),
        search_file_ignoring_case("y", "/f", Err(MISSING.to_string()))
    );
}

#[test]
fn exact_directory_matches_are_among_the_caseless_ones() {
    let mut fs = Fs::new();
    fs.dir("/d");
    fs.file("/d/a", "Apple\napple\nnone\n");
    fs.dir("/d/s");
    fs.file("/d/s/b", "APPLE pie\napple pie\n");
    let exact = drive(search_path("apple", "/d"), &fs).unwrap();
    let caseless = drive(search_path_ignoring_case("apple", "/d"), &fs).unwrap();
    assert_eq!(exact, vec!["/d/a:apple", "/d/s/b:apple pie"]);
    assert_eq!(
        caseless,
        vec!["/d/a:Apple", "/d/a:apple", "/d/s/b:APPLE pie", "/d/s/b:apple pie"]
    );
    let mut rest = caseless.iter();
    assert!(exact.iter().all(|line| rest.any(|c| c == line)));
}

#[test]
fn walk_files_descends_into_subdirectories_in_sorted_order() {
    let mut fs = Fs::new();
    fs.dir("/t");
    fs.file("/t/b.txt", "b");
    fs.dir("/t/sub");
    fs.file("/t/sub/c.txt", "c");
    fs.file("/t/a.txt", "a");
    let files = drive_walk(walk_files("/t"), &fs).unwrap();
    assert_eq!(files, vec!["/t/a.txt", "/t/b.txt", "/t/sub/c.txt"]);
}

#[test]
fn walk_files_is_empty_for_an_empty_directory() {
    let mut fs = Fs::new();
    fs.dir("/t");
    assert!(drive_walk(walk_files("/t"), &fs).unwrap().is_empty());
}

#[test]
fn walk_files_errors_when_the_root_does_not_exist() {
    let fs = Fs::new();
    assert!(drive_walk(walk_files("/no/such/rgrep-missing-dir"), &fs).is_err());
}

#[test]
fn walk_files_asks_first_for_the_listing_of_the_root() {
    match walk_files("/t").progress() {
        Progress::Pending(Request::ReadDir(path)) => assert_eq!(path, "/t"),
        other => panic!("unexpected {:?}", other),
    }
}

#[test]
fn walk_files_skips_links_and_reports_the_first_failure() {
    let mut fs = Fs::new();
    fs.dir("/t");
    fs.file("/t/real", "x");
    fs.link("/t/alias", "/t/real");
    fs.dir("/t/a-b");
    fs.file("/t/a-b/z", "x");
    fs.file("/t/a", "x");
    assert_eq!(
        drive_walk(walk_files("/t"), &fs).unwrap(),
        vec!["/t/a", "/t/a-b/z", "/t/real"]
    );
    fs.unreadable("/t/locked");
    let walk = walk_files("/t").answer(Reply::Listing(Ok(vec![
        Ok(Entry { path: "/t/locked".to_string(), kind: Ok(EntryKind::Dir) }),
    ])));
    let result = drive_walk(walk, &fs);
    assert_eq!(result, Err("/t/locked: Permission denied (os error 13)".to_string()));
}
