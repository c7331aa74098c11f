//! The command line: which command the arguments ask for.
use vstd::prelude::*;

use crate::error::{ErrorView, SeerError};
use crate::diff::{
    complete_line, joined, lemma_lines_from_complete, lemma_lines_of_joined_then, lemma_lines_of_line_then, lines_of,
    split_keepends,
};
use crate::text::{
    chars_of, decimal, has_prefix, owned, parse_usize, parsed_usize, push_decimal, push_str, starts_with, str_eq,
    string_of,
};
use crate::RunOutput;

verus! {

pub const HELP: &'static str = "Control-and-call outlines of source code

Usage: seer [--help] [--version]
       seer [--max-lines N] <COMMAND...>
       seer <PATH>
       seer tree [PATH]
       seer graph [--format mermaid|json|html] [PATH]
       seer diff [REV] [REV] [-- PATH...]
       seer diff-trees <A> <B>

  seer graph PATH          call graph (Mermaid)
  seer graph --format html PATH
                           self-contained HTML graph
  --format mermaid|json|html
                           graph output only; default mermaid
  --max-lines N            keep the first N lines of stdout, then a notice

Exit 0 on success, including a printed diff; 2 usage; 3 runtime.

Sample tree:
  src/lib.rs:1 fn process
    if items.is_empty()
      return
    for item in items
      src/lib.rs:12 handle(item)
        return
";

pub const VERSION: &'static str = "seer 0.1.0\n";

#[derive(Clone, Copy, Debug, PartialEq, Eq, Structural)]
pub enum GraphFormat {
    Mermaid,
    Json,
    Html,
}

/// Where the sources of a command come from.
#[derive(Debug, PartialEq, Eq)]
pub enum Source {
    Stdin,
    Path(String),
}

pub enum SourceView {
    Stdin,
    Path(Seq<char>),
}

impl View for Source {
    type V = SourceView;

    open spec fn view(&self) -> SourceView {
        match self {
            Source::Stdin => SourceView::Stdin,
            Source::Path(p) => SourceView::Path(p@),
        }
    }
}

/// The command that the arguments ask for.
#[derive(Debug, PartialEq, Eq)]
pub enum Plan {
    /// Print this and exit (help, version).
    Output(RunOutput),
    /// Outline tree of the sources.
    Tree(Source),
    /// Call graph of the sources.
    Graph(GraphFormat, Source),
    /// Diff of two outline text files.
    DiffTrees(String, String),
    /// Outline diff of git revisions; the arguments after `diff`.
    GitDiff(Vec<String>),
}

pub enum PlanView {
    Output(Seq<char>, i32),
    Tree(SourceView),
    Graph(GraphFormat, SourceView),
    DiffTrees(Seq<char>, Seq<char>),
    GitDiff(Seq<Seq<char>>),
}

impl View for Plan {
    type V = PlanView;

    open spec fn view(&self) -> PlanView {
        match self {
            Plan::Output(o) => PlanView::Output(o.stdout@, o.exit),
            Plan::Tree(s) => PlanView::Tree(s@),
            Plan::Graph(f, s) => PlanView::Graph(*f, s@),
            Plan::DiffTrees(a, b) => PlanView::DiffTrees(a@, b@),
            Plan::GitDiff(v) => PlanView::GitDiff(v.deep_view()),
        }
    }
}

/// Help text, exit 0.
pub fn help() -> (out: RunOutput)
    ensures
        out.stdout@ == HELP@,
        out.exit == 0,
{
    RunOutput { stdout: owned(HELP), exit: 0 }
}

/// Name and version, exit 0.
pub fn version() -> (out: RunOutput)
    ensures
        out.stdout@ == VERSION@,
        out.exit == 0,
{
    RunOutput { stdout: owned(VERSION), exit: 0 }
}

pub open spec fn is_help(a: Seq<char>) -> bool {
    a == "-h"@ || a == "--help"@
}

pub open spec fn is_version(a: Seq<char>) -> bool {
    a == "-V"@ || a == "--version"@
}

/// Help or version output for a flag that asks for it.
pub open spec fn help_or_version_spec(a: Seq<char>) -> Option<PlanView> {
    if is_help(a) {
        Some(PlanView::Output(HELP@, 0))
    } else if is_version(a) {
        Some(PlanView::Output(VERSION@, 0))
    } else {
        None
    }
}

pub fn help_or_version(arg: &str) -> (r: Option<RunOutput>)
    ensures
        match r {
            Some(o) => help_or_version_spec(arg@) == Some(PlanView::Output(o.stdout@, o.exit)),
            None => help_or_version_spec(arg@) is None,
        },
{
    if str_eq(arg, "-h") || str_eq(arg, "--help") {
        Some(help())
    } else if str_eq(arg, "-V") || str_eq(arg, "--version") {
        Some(version())
    } else {
        None
    }
}

pub open spec fn format_error(v: Seq<char>) -> Seq<char> {
    "invalid --format: "@ + v + " (expected mermaid, json, or html)"@
}

pub open spec fn graph_format_of(v: Seq<char>) -> Result<GraphFormat, ErrorView> {
    if v == "mermaid"@ {
        Ok(GraphFormat::Mermaid)
    } else if v == "json"@ {
        Ok(GraphFormat::Json)
    } else if v == "html"@ {
        Ok(GraphFormat::Html)
    } else {
        Err(ErrorView::Usage(format_error(v)))
    }
}

pub fn parse_graph_format(v: &str) -> (r: Result<GraphFormat, SeerError>)
    ensures
        match r {
            Ok(f) => graph_format_of(v@) == Ok::<GraphFormat, ErrorView>(f),
            Err(e) => graph_format_of(v@) == Err::<GraphFormat, ErrorView>(e@),
        },
{
    if str_eq(v, "mermaid") {
        Ok(GraphFormat::Mermaid)
    } else if str_eq(v, "json") {
        Ok(GraphFormat::Json)
    } else if str_eq(v, "html") {
        Ok(GraphFormat::Html)
    } else {
        let mut m = owned("invalid --format: ");
        push_str(&mut m, v);
        push_str(&mut m, " (expected mermaid, json, or html)");
        Err(SeerError::Usage(m))
    }
}

/// `graph` options from token `i` on, with the format and path so far.
pub open spec fn graph_args_from(
    tokens: Seq<Seq<char>>,
    i: int,
    format: GraphFormat,
    path: Option<Seq<char>>,
) -> Result<(GraphFormat, Option<Seq<char>>), ErrorView>
    decreases tokens.len() - i,
{
    if i < 0 || i >= tokens.len() {
        Ok((format, path))
    } else {
        let t = tokens[i];
        if t == "--format"@ {
            if i + 1 >= tokens.len() {
                Err(ErrorView::Usage("--format requires mermaid, json, or html"@))
            } else {
                match graph_format_of(tokens[i + 1]) {
                    Ok(f) => graph_args_from(tokens, i + 2, f, path),
                    Err(e) => Err(e),
                }
            }
        } else if has_prefix(t, "--format="@) {
            match graph_format_of(t.skip(9)) {
                Ok(f) => graph_args_from(tokens, i + 1, f, path),
                Err(e) => Err(e),
            }
        } else if t.len() > 0 && t[0] == '-' && t != "-"@ {
            Err(ErrorView::Usage("unexpected argument: "@ + t))
        } else if path is Some {
            Err(ErrorView::Usage("unexpected arguments"@))
        } else {
            graph_args_from(tokens, i + 1, format, Some(t))
        }
    }
}

/// Format (Mermaid by default) and optional path of `graph`'s arguments.
pub fn parse_graph_args(tokens: &Vec<String>) -> (r: Result<(GraphFormat, Option<String>), SeerError>)
    ensures
        match r {
            Ok((f, p)) => graph_args_from(tokens.deep_view(), 0, GraphFormat::Mermaid, None) == Ok::<(GraphFormat, Option<Seq<char>>), ErrorView>((f, match p {
                Some(s) => Some(s@),
                None => None,
            })),
            Err(e) => graph_args_from(tokens.deep_view(), 0, GraphFormat::Mermaid, None) == Err::<(GraphFormat, Option<Seq<char>>), ErrorView>(e@),
        },
{
    let ghost tv = tokens.deep_view();
    let mut format = GraphFormat::Mermaid;
    let mut path: Option<String> = None;
    let mut i: usize = 0;
    while i < tokens.len()
        invariant
            i <= tokens@.len(),
            tv == tokens.deep_view(),
            graph_args_from(tv, 0, GraphFormat::Mermaid, None) == graph_args_from(tv, i as int, format, match path {
                Some(s) => Some(s@),
                None => None,
            }),
        decreases tokens@.len() - i,
    {
        let t = &tokens[i];
        assert(tv[i as int] == t@);
        if str_eq(t.as_str(), "--format") {
            if i + 1 >= tokens.len() {
                return Err(SeerError::Usage(owned("--format requires mermaid, json, or html")));
            }
            assert(tv[i + 1] == tokens@[i + 1]@);
            match parse_graph_format(tokens[i + 1].as_str()) {
                Ok(f) => {
                    format = f;
                },
                Err(e) => {
                    return Err(e);
                },
            }
            i = i + 2;
            continue;
        }
        if starts_with(t.as_str(), "--format=") {
            proof {
                reveal_strlit("--format=");
            }
            let cs = chars_of(t.as_str());
            let v = string_of(&cs, 9, cs.len());
            assert(v@ =~= t@.skip(9));
            match parse_graph_format(v.as_str()) {
                Ok(f) => {
                    format = f;
                },
                Err(e) => {
                    return Err(e);
                },
            }
            i = i + 1;
            continue;
        }
        let cs = chars_of(t.as_str());
        if cs.len() > 0 && cs[0] == '-' && !str_eq(t.as_str(), "-") {
            let mut m = owned("unexpected argument: ");
            push_str(&mut m, t.as_str());
            return Err(SeerError::Usage(m));
        }
        if path.is_some() {
            return Err(SeerError::Usage(owned("unexpected arguments")));
        }
        path = Some(t.clone());
        i = i + 1;
    }
    Ok((format, path))
}

/// Source of a command: a path (`-` is standard input), or standard input
/// when none is given, which must then not be a terminal.
pub open spec fn source_of(path: Option<Seq<char>>, stdin_is_terminal: bool) -> Result<SourceView, ErrorView> {
    match path {
        None => if stdin_is_terminal {
            Err(ErrorView::Usage("path required when stdin is a terminal"@))
        } else {
            Ok(SourceView::Stdin)
        },
        Some(p) => if p == "-"@ {
            Ok(SourceView::Stdin)
        } else {
            Ok(SourceView::Path(p))
        },
    }
}

pub fn collect_files_for_command(path: Option<String>, stdin_is_terminal: bool) -> (r: Result<Source, SeerError>)
    ensures
        match r {
            Ok(s) => source_of(match path {
                Some(p) => Some(p@),
                None => None,
            }, stdin_is_terminal) == Ok::<SourceView, ErrorView>(s@),
            Err(e) => source_of(match path {
                Some(p) => Some(p@),
                None => None,
            }, stdin_is_terminal) == Err::<SourceView, ErrorView>(e@),
        },
{
    match path {
        None => if stdin_is_terminal {
            Err(SeerError::Usage(owned("path required when stdin is a terminal")))
        } else {
            Ok(Source::Stdin)
        },
        Some(p) => if str_eq(p.as_str(), "-") {
            Ok(Source::Stdin)
        } else {
            Ok(Source::Path(p))
        },
    }
}

pub open spec fn with_source(r: Result<SourceView, ErrorView>, graph: Option<GraphFormat>) -> Result<PlanView, ErrorView> {
    match r {
        Err(e) => Err(e),
        Ok(s) => match graph {
            Some(f) => Ok(PlanView::Graph(f, s)),
            None => Ok(PlanView::Tree(s)),
        },
    }
}

/// The command for `args` (the program name first).
pub open spec fn plan_of(args: Seq<Seq<char>>, stdin_is_terminal: bool) -> Result<PlanView, ErrorView> {
    let rest = if args.len() > 0 {
        args.skip(1)
    } else {
        args
    };
    if rest.len() == 0 || rest[0] == "--"@ {
        Ok(PlanView::GitDiff(rest))
    } else {
        let a = rest[0];
        if is_help(a) {
            Ok(PlanView::Output(HELP@, 0))
        } else if is_version(a) {
            Ok(PlanView::Output(VERSION@, 0))
        } else if (a == "tree"@ || a == "graph"@ || a == "diff-trees"@ || a == "diff"@) && rest.len() > 1
            && help_or_version_spec(rest[1]) is Some {
            Ok(help_or_version_spec(rest[1]).unwrap())
        } else if a == "tree"@ {
            if rest.len() == 1 {
                with_source(source_of(None, stdin_is_terminal), None)
            } else if rest.len() == 2 {
                with_source(source_of(Some(rest[1]), stdin_is_terminal), None)
            } else {
                Err(ErrorView::Usage("unexpected arguments"@))
            }
        } else if a == "graph"@ {
            match graph_args_from(rest.skip(1), 0, GraphFormat::Mermaid, None) {
                Err(e) => Err(e),
                Ok((f, p)) => with_source(source_of(p, stdin_is_terminal), Some(f)),
            }
        } else if a == "diff-trees"@ {
            if rest.len() != 3 {
                Err(ErrorView::Usage("diff-trees requires two paths"@))
            } else {
                Ok(PlanView::DiffTrees(rest[1], rest[2]))
            }
        } else if a == "diff"@ {
            Ok(PlanView::GitDiff(rest.skip(1)))
        } else if rest.len() > 1 {
            Err(ErrorView::Usage("unexpected arguments"@))
        } else {
            with_source(source_of(Some(a), stdin_is_terminal), None)
        }
    }
}

fn copy_from(v: &Vec<String>, from: usize) -> (r: Vec<String>)
    requires
        from <= v@.len(),
    ensures
        r.deep_view() == v.deep_view().skip(from as int),
{
    let mut r: Vec<String> = Vec::new();
    let mut k = from;
    while k < v.len()
        invariant
            from <= k <= v@.len(),
            r.deep_view() == v.deep_view().subrange(from as int, k as int),
        decreases v@.len() - k,
    {
        let ghost before = r.deep_view();
        r.push(v[k].clone());
        assert(r.deep_view() =~= before.push(v.deep_view()[k as int]));
        assert(v.deep_view().subrange(from as int, k + 1) =~= v.deep_view().subrange(from as int, k as int).push(v.deep_view()[k as int]));
        k = k + 1;
    }
    assert(v.deep_view().subrange(from as int, v@.len() as int) =~= v.deep_view().skip(from as int));
    r
}

fn source_plan(path: Option<String>, stdin_is_terminal: bool, graph: Option<GraphFormat>) -> (r: Result<Plan, SeerError>)
    ensures
        match r {
            Ok(p) => with_source(source_of(match path {
                Some(s) => Some(s@),
                None => None,
            }, stdin_is_terminal), graph) == Ok::<PlanView, ErrorView>(p@),
            Err(e) => with_source(source_of(match path {
                Some(s) => Some(s@),
                None => None,
            }, stdin_is_terminal), graph) == Err::<PlanView, ErrorView>(e@),
        },
{
    match collect_files_for_command(path, stdin_is_terminal) {
        Err(e) => Err(e),
        Ok(s) => match graph {
            Some(f) => Ok(Plan::Graph(f, s)),
            None => Ok(Plan::Tree(s)),
        },
    }
}

/// The command that `args` (program name first) asks for; whether standard
/// input is a terminal decides when a path is missing.
pub fn plan(args: &Vec<String>, stdin_is_terminal: bool) -> (r: Result<Plan, SeerError>)
    ensures
        match r {
            Ok(p) => plan_of(args.deep_view(), stdin_is_terminal) == Ok::<PlanView, ErrorView>(p@),
            Err(e) => plan_of(args.deep_view(), stdin_is_terminal) == Err::<PlanView, ErrorView>(e@),
        },
{
    let ghost av = args.deep_view();
    let rest = if args.len() > 0 {
        copy_from(args, 1)
    } else {
        Vec::new()
    };
    let ghost rv = rest.deep_view();
    assert(rv == (if av.len() > 0 { av.skip(1) } else { av }));
    if rest.len() == 0 || str_eq(rest[0].as_str(), "--") {
        return Ok(Plan::GitDiff(rest));
    }
    let a = rest[0].as_str();
    assert(rv[0] == a@);
    if str_eq(a, "-h") || str_eq(a, "--help") {
        return Ok(Plan::Output(help()));
    }
    if str_eq(a, "-V") || str_eq(a, "--version") {
        return Ok(Plan::Output(version()));
    }
    let sub = str_eq(a, "tree") || str_eq(a, "graph") || str_eq(a, "diff-trees") || str_eq(a, "diff");
    if sub && rest.len() > 1 {
        assert(rv[1] == rest@[1]@);
        match help_or_version(rest[1].as_str()) {
            Some(out) => {
                return Ok(Plan::Output(out));
            },
            None => {},
        }
    }
    proof {
        reveal_strlit("tree");
        reveal_strlit("graph");
        reveal_strlit("diff-trees");
        reveal_strlit("diff");
    }
    if str_eq(a, "tree") {
        if rest.len() == 1 {
            source_plan(None, stdin_is_terminal, None)
        } else if rest.len() == 2 {
            assert(rv[1] == rest@[1]@);
            source_plan(Some(rest[1].clone()), stdin_is_terminal, None)
        } else {
            Err(SeerError::Usage(owned("unexpected arguments")))
        }
    } else if str_eq(a, "graph") {
        let tokens = copy_from(&rest, 1);
        match parse_graph_args(&tokens) {
            Err(e) => Err(e),
            Ok((f, p)) => source_plan(p, stdin_is_terminal, Some(f)),
        }
    } else if str_eq(a, "diff-trees") {
        if rest.len() != 3 {
            Err(SeerError::Usage(owned("diff-trees requires two paths")))
        } else {
            assert(rv[1] == rest@[1]@);
            assert(rv[2] == rest@[2]@);
            Ok(Plan::DiffTrees(rest[1].clone(), rest[2].clone()))
        }
    } else if str_eq(a, "diff") {
        Ok(Plan::GitDiff(copy_from(&rest, 1)))
    } else if rest.len() > 1 {
        Err(SeerError::Usage(owned("unexpected arguments")))
    } else {
        source_plan(Some(rest[0].clone()), stdin_is_terminal, None)
    }
}

pub open spec fn max_lines_error(v: Seq<char>) -> Seq<char> {
    "invalid --max-lines: "@ + v
}

/// The line cap that `--max-lines N` (or `--max-lines=N`) right after the
/// program name asks for, and the arguments without it.
pub open spec fn cap_split(args: Seq<Seq<char>>) -> Result<(Option<nat>, Seq<Seq<char>>), ErrorView> {
    if args.len() >= 2 && args[1] == "--max-lines"@ {
        if args.len() < 3 {
            Err(ErrorView::Usage("--max-lines requires a number"@))
        } else {
            match parsed_usize(args[2]) {
                Some(n) => Ok((Some(n), seq![args[0]] + args.skip(3))),
                None => Err(ErrorView::Usage(max_lines_error(args[2]))),
            }
        }
    } else if args.len() >= 2 && has_prefix(args[1], "--max-lines="@) {
        match parsed_usize(args[1].skip(12)) {
            Some(n) => Ok((Some(n), seq![args[0]] + args.skip(2))),
            None => Err(ErrorView::Usage(max_lines_error(args[1].skip(12)))),
        }
    } else {
        Ok((None, args))
    }
}

/// Splits a leading `--max-lines N` off `args` (program name first).
pub fn split_max_lines(args: &Vec<String>) -> (r: Result<(Option<usize>, Vec<String>), SeerError>)
    ensures
        match r {
            Ok((n, rest)) => cap_split(args.deep_view()) == Ok::<(Option<nat>, Seq<Seq<char>>), ErrorView>((
                match n {
                    Some(v) => Some(v as nat),
                    None => None,
                },
                rest.deep_view(),
            )),
            Err(e) => cap_split(args.deep_view()) == Err::<(Option<nat>, Seq<Seq<char>>), ErrorView>(e@),
        },
{
    let ghost av = args.deep_view();
    proof {
        reveal_strlit("--max-lines=");
    }
    if args.len() >= 2 && str_eq(args[1].as_str(), "--max-lines") {
        assert(av[1] == args@[1]@);
        if args.len() < 3 {
            return Err(SeerError::Usage(owned("--max-lines requires a number")));
        }
        assert(av[2] == args@[2]@);
        match parse_usize(args[2].as_str()) {
            Some(n) => {
                let mut rest: Vec<String> = Vec::new();
                rest.push(args[0].clone());
                let mut tail = copy_from(args, 3);
                let ghost t = tail.deep_view();
                rest.append(&mut tail);
                assert(rest.deep_view() =~= seq![av[0]] + t);
                Ok((Some(n), rest))
            },
            None => {
                let mut m = owned("invalid --max-lines: ");
                push_str(&mut m, args[2].as_str());
                Err(SeerError::Usage(m))
            },
        }
    } else if args.len() >= 2 && starts_with(args[1].as_str(), "--max-lines=") {
        assert(av[1] == args@[1]@);
        let cs = chars_of(args[1].as_str());
        let v = string_of(&cs, 12, cs.len());
        assert(v@ =~= av[1].skip(12));
        match parse_usize(v.as_str()) {
            Some(n) => {
                let mut rest: Vec<String> = Vec::new();
                rest.push(args[0].clone());
                let mut tail = copy_from(args, 2);
                let ghost t = tail.deep_view();
                rest.append(&mut tail);
                assert(rest.deep_view() =~= seq![av[0]] + t);
                Ok((Some(n), rest))
            },
            None => {
                let mut m = owned("invalid --max-lines: ");
                push_str(&mut m, v.as_str());
                Err(SeerError::Usage(m))
            },
        }
    } else {
        let rest = copy_from(args, 0);
        assert(av.skip(0) =~= av);
        Ok((None, rest))
    }
}

/// The line that follows the kept lines of a capped output.
pub open spec fn cap_notice(hidden: nat, n: nat) -> Seq<char> {
    "... "@ + decimal(hidden) + " more (--max-lines "@ + decimal(n) + ")\n"@
}

/// `s` with at most `n` lines: unchanged when it has no more, else its
/// first `n` lines and then a notice of how many were cut.
pub open spec fn capped(s: Seq<char>, n: nat) -> Seq<char> {
    let ls = lines_of(s);
    if ls.len() <= n {
        s
    } else {
        joined(ls.take(n as int)) + cap_notice((ls.len() - n) as nat, n)
    }
}

/// Caps `s` at `n` lines, as `--max-lines n` asks.
pub fn cap_lines(s: &str, n: usize) -> (out: String)
    ensures
        out@ == capped(s@, n as nat),
{
    let lines = split_keepends(s);
    let ghost ls = lines.deep_view();
    if lines.len() <= n {
        return owned(s);
    }
    let mut out = String::new();
    let mut k: usize = 0;
    assert(ls.take(0) =~= Seq::<Seq<char>>::empty());
    while k < n
        invariant
            k <= n < lines@.len(),
            ls == lines.deep_view(),
            out@ == joined(ls.take(k as int)),
        decreases n - k,
    {
        push_str(&mut out, lines[k].as_str());
        assert(ls[k as int] == lines@[k as int]@);
        assert(ls.take(k + 1).drop_last() =~= ls.take(k as int));
        k = k + 1;
    }
    push_str(&mut out, "... ");
    push_decimal(&mut out, lines.len() - n);
    push_str(&mut out, " more (--max-lines ");
    push_decimal(&mut out, n);
    push_str(&mut out, ")\n");
    assert(out@ =~= joined(ls.take(n as int)) + cap_notice((ls.len() - n) as nat, n as nat));
    out
}

/// Law: output under the line cap is left as it is.
pub proof fn law_short_output_uncapped(s: Seq<char>, n: nat)
    requires
        lines_of(s).len() <= n,
    ensures
        capped(s, n) == s,
{
}

proof fn lemma_decimal_has_no_line_end(n: nat)
    ensures
        forall|i: int| 0 <= i < decimal(n).len() ==> decimal(n)[i] != '\n',
    decreases n,
{
    if n >= 10 {
        lemma_decimal_has_no_line_end(n / 10);
        assert forall|i: int| 0 <= i < decimal(n).len() implies decimal(n)[i] != '\n' by {
            if i < decimal(n / 10).len() {
                assert(decimal(n)[i] == decimal(n / 10)[i]);
            }
        }
    }
}

/// Law: a capped output has `n + 1` lines: the first `n` lines of the
/// output and then the notice.
pub proof fn law_capped_is_kept_lines_and_notice(s: Seq<char>, n: nat)
    requires
        lines_of(s).len() > n,
    ensures
        lines_of(capped(s, n)) == lines_of(s).take(n as int).push(cap_notice((lines_of(s).len() - n) as nat, n)),
        lines_of(capped(s, n)).len() == n + 1,
{
    let ls = lines_of(s);
    let kept = ls.take(n as int);
    let h = (ls.len() - n) as nat;
    let notice = cap_notice(h, n);
    lemma_lines_from_complete(s, 0, Seq::empty());
    assert forall|i: int| 0 <= i < kept.len() implies complete_line(#[trigger] kept[i]) by {
        assert(kept[i] == ls[i]);
    }
    lemma_lines_of_joined_then(kept, notice);
    reveal_strlit("... ");
    reveal_strlit(" more (--max-lines ");
    reveal_strlit(")\n");
    lemma_decimal_has_no_line_end(h);
    lemma_decimal_has_no_line_end(n);
    let a = "... "@;
    let b = " more (--max-lines "@;
    let c = ")\n"@;
    assert(notice == a + decimal(h) + b + decimal(n) + c);
    assert forall|i: int| 0 <= i < notice.len() - 1 implies notice[i] != '\n' by {
        let l1 = a.len() as int;
        let l2 = l1 + decimal(h).len();
        let l3 = l2 + b.len();
        let l4 = l3 + decimal(n).len();
        if i < l1 {
            assert(notice[i] == a[i]);
        } else if i < l2 {
            assert(notice[i] == decimal(h)[i - l1]);
        } else if i < l3 {
            assert(notice[i] == b[i - l2]);
        } else if i < l4 {
            assert(notice[i] == decimal(n)[i - l3]);
        } else {
            assert(notice[i] == c[i - l4]);
        }
    }
    assert(complete_line(notice));
    lemma_lines_of_line_then(notice, Seq::empty());
    assert(notice + Seq::<char>::empty() =~= notice);
    assert(lines_of(Seq::<char>::empty()) =~= Seq::<Seq<char>>::empty());
    assert(seq![notice] + Seq::<Seq<char>>::empty() =~= seq![notice]);
    assert(kept + seq![notice] =~= kept.push(notice));
}

} // verus!
