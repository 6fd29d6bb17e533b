//! The command line tool: its arguments, and what it writes and exits with
//! once a search is over.

use vstd::prelude::*;
use vstd::string::StringExecFns;
use vstd::utf8::{encode_scalar, encode_utf8};
use crate::encoding::{lemma_char_code, lemma_encode_injective, lemma_scalar_bytes};
use crate::search::{
    outcome_view, search_path, search_path_ignoring_case, start, step, string_views, wanted,
    Progress, Reply, Request, Search, SearchView, Wanted,
};

verus! {

/// What a run ends with: the exit code and the text written to standard
/// output and to standard error.
#[derive(Debug)]
pub struct Exit {
    pub code: u8,
    pub stdout: String,
    pub stderr: String,
}

/// An exit as texts.
pub struct ExitView {
    pub code: u8,
    pub stdout: Seq<char>,
    pub stderr: Seq<char>,
}

pub open spec fn exit_view(e: Exit) -> ExitView {
    ExitView { code: e.code, stdout: e.stdout@, stderr: e.stderr@ }
}

/// Where a run stands: an operation to be done, or how it exits.
#[derive(Debug)]
pub enum Step {
    Pending(Request),
    Exit(Exit),
}

/// A run as texts: searching, or over.
pub enum RunView {
    Searching(SearchView),
    Over(ExitView),
}

/// What a run asks for next, as texts.
pub enum RunWanted {
    Io(Wanted),
    Exit(ExitView),
}

pub open spec fn step_view(s: Step) -> RunWanted {
    match s {
        Step::Pending(Request::Metadata(path)) => RunWanted::Io(Wanted::Metadata(path@)),
        Step::Pending(Request::ReadFile(path)) => RunWanted::Io(Wanted::ReadFile(path@)),
        Step::Pending(Request::ReadDir(path)) => RunWanted::Io(Wanted::ReadDir(path@)),
        Step::Exit(e) => RunWanted::Exit(exit_view(e)),
    }
}

/// The text of the usage message.
pub open spec fn usage_message() -> Seq<char> {
    "usage: rgrep <pattern> <file-or-directory>\n"@
}

/// The message that refuses an unknown flag, naming it.
pub open spec fn unknown_flag_message(flag: Seq<char>) -> Seq<char> {
    "rgrep: unknown flag: "@ + flag + "\n"@
}

/// The message that reports a failed search.
pub open spec fn failed_message(reason: Seq<char>) -> Seq<char> {
    "rgrep: "@ + reason + "\n"@
}

/// Each line followed by a line feed, all in order.
pub open spec fn output_text(lines: Seq<Seq<char>>) -> Seq<char>
    decreases lines.len(),
{
    if lines.len() == 0 {
        Seq::empty()
    } else {
        output_text(lines.drop_last()) + lines.last() + seq!['\n']
    }
}

/// How a finished search ends the run: each match on a line of standard
/// output, with exit code 0 when there is one and 1 when there is none; or
/// the failure on standard error and exit code 2.
pub open spec fn report(r: Result<Seq<Seq<char>>, Seq<char>>) -> ExitView {
    match r {
        Ok(lines) => ExitView {
            code: if lines.len() == 0 {
                1
            } else {
                0
            },
            stdout: output_text(lines),
            stderr: Seq::empty(),
        },
        Err(reason) => ExitView { code: 2, stdout: Seq::empty(), stderr: failed_message(reason) },
    }
}

/// An argument that starts with a dash.
pub open spec fn is_flag(arg: Seq<char>) -> bool {
    arg.len() > 0 && arg[0] == '-'
}

/// What the arguments `[-i] <pattern> <path>` start: a search of `path` for
/// `pattern`, ignoring ASCII case when `-i` comes first; or, with exit code
/// 2 and nothing on standard output, the refusal by name of an argument that
/// starts with a dash where the pattern or a flag is expected (any first
/// argument but `-i`, and the one after a leading `-i`), or the usage
/// message when the number of arguments is wrong.
pub open spec fn invocation(args: Seq<Seq<char>>) -> RunView {
    let ignore_case = args.len() > 0 && args[0] == "-i"@;
    let rest = if ignore_case {
        args.drop_first()
    } else {
        args
    };
    if rest.len() > 0 && is_flag(rest[0]) {
        RunView::Over(
            ExitView { code: 2, stdout: Seq::empty(), stderr: unknown_flag_message(rest[0]) },
        )
    } else if rest.len() != 2 {
        RunView::Over(ExitView { code: 2, stdout: Seq::empty(), stderr: usage_message() })
    } else {
        RunView::Searching(start(rest[0], rest[1], ignore_case))
    }
}

/// What a run asks for: what its search asks for, or, once the search is
/// finished or there was none, how it exits.
pub open spec fn run_wanted(r: RunView) -> RunWanted {
    match r {
        RunView::Searching(v) => match wanted(v) {
            Wanted::Finished(result) => RunWanted::Exit(report(result)),
            w => RunWanted::Io(w),
        },
        RunView::Over(e) => RunWanted::Exit(e),
    }
}

/// How a run goes on from what the operation it asked for gave.
pub open spec fn run_step(r: RunView, reply: Reply) -> RunView {
    match r {
        RunView::Searching(v) => RunView::Searching(step(v, reply)),
        RunView::Over(e) => r,
    }
}

/* executable */

/// Whether two texts are equal, compared by their UTF-8 bytes.
fn same_text(a: &str, b: &str) -> (r: bool)
    ensures
        r == (a@ == b@),
{
    let x = a.as_bytes();
    let y = b.as_bytes();
    proof {
        assert(x@ == encode_utf8(a@));
        assert(y@ == encode_utf8(b@));
    }
    if x.len() != y.len() {
        return false;
    }
    let mut i: usize = 0;
    while i < x.len()
        invariant
            x@ == encode_utf8(a@),
            y@ == encode_utf8(b@),
            x@.len() == y@.len(),
            i <= x@.len(),
            forall|k: int| 0 <= k < i ==> x@[k] == y@[k],
        decreases x@.len() - i,
    {
        if x[i] != y[i] {
            return false;
        }
        i += 1;
    }
    proof {
        assert(x@ =~= y@);
        lemma_encode_injective(a@, b@);
    }
    true
}

/// Whether a text starts with a dash, read from its first byte.
fn starts_with_dash(a: &str) -> (r: bool)
    ensures
        r == is_flag(a@),
{
    let x = a.as_bytes();
    proof {
        if a@.len() > 0 {
            lemma_scalar_bytes(a@[0]);
            assert(encode_utf8(a@) == encode_scalar(a@[0] as u32) + encode_utf8(a@.drop_first()));
            assert(x@[0] == encode_scalar(a@[0] as u32)[0]);
            if (a@[0] as u32) < 0x80 && x@[0] == 0x2D {
                lemma_char_code(a@[0], '-');
            }
        }
    }
    x.len() > 0 && x[0] == 0x2D
}

/// The text written for each line followed by a line feed.
fn output_of(lines: &Vec<String>) -> (out: String)
    ensures
        out@ == output_text(string_views(lines@)),
{
    let mut out = "".to_owned();
    let mut i: usize = 0;
    proof {
        reveal_strlit("");
        assert(string_views(lines@.take(0)) =~= Seq::<Seq<char>>::empty());
    }
    while i < lines.len()
        invariant
            i <= lines@.len(),
            out@ == output_text(string_views(lines@.take(i as int))),
        decreases lines@.len() - i,
    {
        out.append(lines[i].as_str());
        out.append("\n");
        proof {
            reveal_strlit("\n");
            let t = string_views(lines@.take(i + 1));
            assert(t.drop_last() =~= string_views(lines@.take(i as int)));
            assert(t.last() == lines@[i as int]@);
        }
        i += 1;
    }
    proof {
        assert(lines@.take(lines@.len() as int) =~= lines@);
    }
    out
}

/// How a finished search ends the run.
fn exit_for(result: Result<Vec<String>, String>) -> (e: Exit)
    ensures
        exit_view(e) == report(outcome_view(result)),
{
    match result {
        Ok(lines) => {
            let stdout = output_of(&lines);
            let stderr = "".to_owned();
            proof {
                reveal_strlit("");
                assert(stderr@ =~= Seq::<char>::empty());
                assert(string_views(lines@).len() == lines@.len());
            }
            let code: u8 = if lines.len() == 0 {
                1
            } else {
                0
            };
            Exit { code, stdout, stderr }
        },
        Err(reason) => {
            let mut stderr = "rgrep: ".to_owned();
            stderr.append(reason.as_str());
            stderr.append("\n");
            let stdout = "".to_owned();
            proof {
                reveal_strlit("");
                assert(stdout@ =~= Seq::<char>::empty());
            }
            Exit { code: 2, stdout, stderr }
        },
    }
}

/// A copy of an exit.
fn copy_exit(e: &Exit) -> (c: Exit)
    ensures
        exit_view(c) == exit_view(*e),
{
    Exit { code: e.code, stdout: e.stdout.clone(), stderr: e.stderr.clone() }
}

enum Stage {
    Searching(Search),
    Over(Exit),
}

/// A run of the tool: a search started from the arguments, or its refusal,
/// driven one filesystem operation at a time until it exits.
pub struct Run {
    stage: Stage,
}

impl View for Run {
    type V = RunView;

    closed spec fn view(&self) -> RunView {
        match self.stage {
            Stage::Searching(s) => RunView::Searching(s@),
            Stage::Over(e) => RunView::Over(exit_view(e)),
        }
    }
}

/// The views of some arguments.
pub open spec fn arg_views(args: Seq<String>) -> Seq<Seq<char>> {
    args.map_values(|a: String| a@)
}

/// Starts a run of the tool on `args`, written `[-i] <pattern> <path>`:
/// `path` may be a file or a directory, searched recursively; `-i` first
/// makes the search ignore ASCII case; any other argument that starts with
/// `-` where the pattern or a flag is expected is refused by name rather
/// than taken for the pattern.
pub fn run(args: &[String]) -> (r: Run)
    ensures
        r@ == invocation(arg_views(args@)),
{
    let ghost a = arg_views(args@);
    let n = args.len();
    let empty = "".to_owned();
    proof {
        reveal_strlit("");
        assert(empty@ =~= Seq::<char>::empty());
        assert(a.len() == n);
    }
    let ignore_case = n > 0 && same_text(args[0].as_str(), "-i");
    let first: usize = if ignore_case {
        1
    } else {
        0
    };
    let ghost rest = if ignore_case {
        a.drop_first()
    } else {
        a
    };
    proof {
        assert(rest.len() == n - first);
        assert forall|k: int| 0 <= k < rest.len() implies rest[k] == #[trigger] args@[k + first]@ by {
            if ignore_case {
                assert(rest[k] == a[k + 1]);
            }
        }
    }
    if first < n && starts_with_dash(args[first].as_str()) {
        proof {
            assert(rest[0] == args@[first as int]@);
        }
        let mut stderr = "rgrep: unknown flag: ".to_owned();
        stderr.append(args[first].as_str());
        stderr.append("\n");
        return Run { stage: Stage::Over(Exit { code: 2, stdout: empty, stderr }) };
    }
    if n - first != 2 {
        return Run {
            stage: Stage::Over(
                Exit {
                    code: 2,
                    stdout: empty,
                    stderr: "usage: rgrep <pattern> <file-or-directory>\n".to_owned(),
                },
            ),
        };
    }
    proof {
        assert(rest[0] == args@[first as int]@);
        assert(rest[1] == args@[first + 1]@);
    }
    let search = if ignore_case {
        search_path_ignoring_case(args[first].as_str(), args[first + 1].as_str())
    } else {
        search_path(args[first].as_str(), args[first + 1].as_str())
    };
    Run { stage: Stage::Searching(search) }
}

impl Run {
    /// The operation the run needs next, or how it exits.
    pub fn progress(&self) -> (s: Step)
        ensures
            step_view(s) == run_wanted(self@),
    {
        match &self.stage {
            Stage::Searching(search) => match search.progress() {
                Progress::Pending(request) => Step::Pending(request),
                Progress::Finished(result) => Step::Exit(exit_for(result)),
            },
            Stage::Over(e) => Step::Exit(copy_exit(e)),
        }
    }

    /// The run gone on from what the operation it asked for gave.
    pub fn answer(self, reply: Reply) -> (next: Run)
        ensures
            next@ == run_step(self@, reply),
    {
        match self.stage {
            Stage::Searching(search) => Run { stage: Stage::Searching(search.answer(reply)) },
            Stage::Over(e) => Run { stage: Stage::Over(e) },
        }
    }
}

} // verus!
