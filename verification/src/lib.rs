//! Control-and-call outlines of Rust, Java and TypeScript sources, their
//! unified diffs, and call graphs.
pub mod browse;
pub mod cli;
pub mod collapse;
pub mod collect;
pub mod diff;
pub mod entry;
pub mod error;
pub mod expand;
pub mod extract;
pub mod git;
pub mod graph;
pub mod ir;
pub mod lang;
pub mod omit;
pub mod parse;
pub mod print;
pub mod resolve;
pub mod sort;
pub mod syntax;
pub mod text;
pub mod view;

use vstd::prelude::*;

pub use crate::diff::diff_text;
pub use crate::error::SeerError;

use crate::diff::{diff_header, difflib_opcodes, grouped, lines_of, unified_text};
use crate::ir::{forest_shifted, law_flow_ignores_lines, outline_text, outlines_view, print_outline, Label};
use crate::resolve::{files_view, index_files, index_of, outline, outline_spec, Expand};

verus! {

/// Successful command result: the text for standard output and the exit
/// status (0 on success, a printed diff included).
#[derive(Clone, Debug, PartialEq, Eq)]
pub struct RunOutput {
    pub stdout: String,
    pub exit: i32,
}

/// Tree text of the files (path, source): one tree per entry point, every
/// resolved call expanded, labels `path:line`.
pub open spec fn tree_text(files: Seq<(Seq<char>, Seq<char>)>) -> Seq<char> {
    outline_text(outline_spec(index_of(files), Expand::Every), Label::Jump)
}

/// Flow text of the files: each callee expanded once, labels `path` only.
pub open spec fn flow_text(files: Seq<(Seq<char>, Seq<char>)>) -> Seq<char> {
    outline_text(outline_spec(index_of(files), Expand::Once), Label::Flow)
}

/// Outline of `files`, given as (POSIX relative path, source text). Reads
/// nothing from disk.
pub fn outline_files(files: &[(String, String)]) -> (out: String)
    ensures
        out@ == tree_text(files_view(files@)),
{
    let index = index_files(files);
    let o = outline(&index, Expand::Every);
    print_outline(&o, Label::Jump)
}

/// Flow outline of `files`, the text that diffs compare.
fn outline_for_diff(files: &[(String, String)]) -> (out: String)
    ensures
        out@ == flow_text(files_view(files@)),
{
    let index = index_files(files);
    let o = outline(&index, Expand::Once);
    print_outline(&o, Label::Flow)
}

/// Unified diff of the flow outlines of two analyzed sets; empty exactly
/// when the two flow outlines are the same, else difflib's unified diff of
/// their lines.
pub fn outline_diff(
    left: &[(String, String)],
    right: &[(String, String)],
    name_a: &str,
    name_b: &str,
) -> (out: String)
    ensures
        (out@.len() == 0) == (flow_text(files_view(left@)) == flow_text(files_view(right@))),
        flow_text(files_view(left@)) != flow_text(files_view(right@)) ==> out@.len() >= diff_header(
            name_a@,
            name_b@,
        ).len() && out@.subrange(0, diff_header(name_a@, name_b@).len() as int) == diff_header(
            name_a@,
            name_b@,
        ),
        flow_text(files_view(left@)) != flow_text(files_view(right@)) ==> out@ == unified_text(
            lines_of(flow_text(files_view(left@))),
            lines_of(flow_text(files_view(right@))),
            grouped(difflib_opcodes(lines_of(flow_text(files_view(left@))), lines_of(flow_text(files_view(right@)))), 3),
            name_a@,
            name_b@,
        ),
{
    let a = outline_for_diff(left);
    let b = outline_for_diff(right);
    diff_text(a.as_str(), b.as_str(), name_a, name_b)
}

/// Law: when the flow outlines of two file sets differ only in line
/// numbers, their flow texts are equal, so `outline_diff` prints nothing.
pub proof fn law_line_shifts_stay_quiet(
    left: Seq<(Seq<char>, Seq<char>)>,
    right: Seq<(Seq<char>, Seq<char>)>,
)
    requires
        forest_shifted(
            outline_spec(index_of(left), Expand::Once),
            outline_spec(index_of(right), Expand::Once),
        ),
    ensures
        flow_text(left) == flow_text(right),
{
    law_flow_ignores_lines(outline_spec(index_of(left), Expand::Once), outline_spec(index_of(right), Expand::Once));
}

/// Law: no files give no outline: the tree and flow texts of an empty set
/// of files are empty.
pub proof fn law_no_files_no_outline()
    ensures
        tree_text(Seq::empty()) == Seq::<char>::empty(),
        flow_text(Seq::empty()) == Seq::<char>::empty(),
{
    let ix = index_of(Seq::empty());
    crate::resolve::law_no_defs_no_outline(ix, Expand::Every);
    crate::resolve::law_no_defs_no_outline(ix, Expand::Once);
}

} // verus!
