//! Language selection and syntax helpers shared by the extractors.
pub mod java;
pub mod rust;
pub mod typescript;

use vstd::prelude::*;

use crate::collapse::{collapse_chars, collapse_node, collapsed_chars, node_collapsed, node_literal_ranges, literal_ranges, spans_view};
use crate::syntax::{char_index, field_child, lemma_char_index_bounds, lemma_field_child_from, lemma_last_named_from, lemma_subtree_end_bounds, last_named_from, subtree_end, SyntaxTree, TreeView};
use crate::text::{byte_len, ends_with, has_suffix, str_eq};

verus! {

#[derive(Clone, Copy, Debug, PartialEq, Eq, Structural)]
pub enum Language {
    Rust,
    Java,
    TypeScript,
}

/// Last path component, as `Path::file_name` finds it: the text after the
/// final `/` once trailing slashes and trailing `/.` parts are dropped;
/// absent when that is empty, `.` or `..`.
pub open spec fn file_name_of(path: Seq<char>) -> Option<Seq<char>>
    decreases path.len(),
{
    if path.len() > 0 && path.last() == '/' {
        file_name_of(path.drop_last())
    } else if path.len() >= 2 && path.last() == '.' && path[path.len() - 2] == '/' {
        file_name_of(path.drop_last())
    } else {
        let name = last_segment(path, path.len() as int);
        if name.len() == 0 || name == seq!['.', '.'] || name == seq!['.'] {
            None
        } else {
            Some(name)
        }
    }
}

/// Text of `path[..k]` after its last `/`.
pub open spec fn last_segment(path: Seq<char>, k: int) -> Seq<char>
    decreases k,
{
    if k <= 0 {
        path
    } else if path[k - 1] == '/' {
        path.subrange(k, path.len() as int)
    } else {
        last_segment(path, k - 1)
    }
}

pub open spec fn has_source_suffix(name: Seq<char>) -> bool {
    has_suffix(name, ".rs"@) || has_suffix(name, ".java"@) || has_suffix(name, ".ts"@)
        || has_suffix(name, ".tsx"@) || has_suffix(name, ".mts"@) || has_suffix(name, ".cts"@)
}

/// Language chosen by a path's file name; `<stdin>` is Rust.
pub open spec fn language_of(path: Seq<char>) -> Option<Language> {
    if path == "<stdin>"@ {
        Some(Language::Rust)
    } else {
        let name = match file_name_of(path) {
            Some(n) => n,
            None => path,
        };
        if has_suffix(name, ".rs"@) {
            Some(Language::Rust)
        } else if has_suffix(name, ".java"@) {
            Some(Language::Java)
        } else if has_suffix(name, ".ts"@) || has_suffix(name, ".tsx"@) || has_suffix(name, ".mts"@)
            || has_suffix(name, ".cts"@) {
            Some(Language::TypeScript)
        } else {
            None
        }
    }
}

/// The file name of `path`, as [`file_name_of`] describes it.
pub fn file_name(path: &str) -> (r: Option<String>)
    ensures
        match r {
            Some(s) => file_name_of(path@) == Some(s@),
            None => file_name_of(path@) is None,
        },
{
    let cs = crate::text::chars_of(path);
    let mut end = cs.len();
    assert(cs@.take(end as int) =~= cs@);
    while end > 0 && (cs[end - 1] == '/' || (end >= 2 && cs[end - 1] == '.' && cs[end - 2] == '/'))
        invariant
            end <= cs@.len(),
            cs@ == path@,
            file_name_of(path@) == file_name_of(cs@.take(end as int)),
        decreases end,
    {
        assert(cs@.take(end as int).drop_last() =~= cs@.take(end - 1));
        end = end - 1;
    }
    let ghost p = cs@.take(end as int);
    let mut k = end;
    while k > 0 && cs[k - 1] != '/'
        invariant
            k <= end <= cs@.len(),
            p == cs@.take(end as int),
            last_segment(p, p.len() as int) == last_segment(p, k as int),
        decreases k,
    {
        k = k - 1;
    }
    let name = crate::text::string_of(&cs, k, end);
    assert(last_segment(p, k as int) =~= name@) by {
        if k > 0 {
            assert(p[k - 1] == cs@[k - 1]);
            assert(p[k - 1] == '/');
            assert(p.subrange(k as int, p.len() as int) =~= cs@.subrange(k as int, end as int));
        } else {
            assert(p =~= cs@.subrange(0, end as int));
        }
    }
    assert(!(p.len() > 0 && p.last() == '/'));
    assert(!(p.len() >= 2 && p.last() == '.' && p[p.len() - 2] == '/'));
    assert(file_name_of(path@) == file_name_of(p));
    proof {
        reveal_strlit("..");
        reveal_strlit(".");
    }
    assert(".."@ =~= seq!['.', '.']);
    assert("."@ =~= seq!['.']);
    if name.unicode_len() == 0 || str_eq(name.as_str(), "..") || str_eq(name.as_str(), ".") {
        None
    } else {
        Some(name)
    }
}

/// Extension to language. `<stdin>` is Rust. Unknown gives `None`.
pub fn language_for_path(path: &str) -> (r: Option<Language>)
    ensures
        r == language_of(path@),
{
    if str_eq(path, "<stdin>") {
        return Some(Language::Rust);
    }
    let owned_name = file_name(path);
    let name: &str = match &owned_name {
        Some(n) => n.as_str(),
        None => path,
    };
    if ends_with(name, ".rs") {
        Some(Language::Rust)
    } else if ends_with(name, ".java") {
        Some(Language::Java)
    } else if ends_with(name, ".ts") || ends_with(name, ".tsx") || ends_with(name, ".mts")
        || ends_with(name, ".cts") {
        Some(Language::TypeScript)
    } else {
        None
    }
}

/// Whether a file name has one of the supported source extensions.
pub fn is_source_filename(name: &str) -> (r: bool)
    ensures
        r == has_source_suffix(name@),
{
    ends_with(name, ".rs") || ends_with(name, ".java") || ends_with(name, ".ts") || ends_with(
        name,
        ".tsx",
    ) || ends_with(name, ".mts") || ends_with(name, ".cts")
}

pub fn supported_languages_msg() -> (r: &'static str)
    ensures
        r@ == "v1 supports rust, java, and typescript"@,
{
    "v1 supports rust, java, and typescript"
}

/// Source text of node `i`.
pub fn node_text(t: &SyntaxTree, i: usize) -> (s: String)
    requires
        t.wf(),
        i < t.len(),
    ensures
        s@ == t.node_text(i as int),
{
    t.text_of(i)
}

/// First named child of `i` whose kind is one of `kinds`.
pub fn first_named_child_kind(t: &SyntaxTree, i: usize, kinds: &[&str]) -> (c: Option<usize>)
    requires
        t.wf(),
        i < t.len(),
    ensures
        match c {
            Some(c) => crate::syntax::named_kind_from(t.recs(), subtree_end(t.recs(), i as int), i + 1, kinds@.map_values(|k: &str| k@)) == Some(c as int) && i < c < t.len(),
            None => crate::syntax::named_kind_from(t.recs(), subtree_end(t.recs(), i as int), i + 1, kinds@.map_values(|k: &str| k@)) is None,
        },
{
    t.first_named_kind(i, kinds)
}

/// Collapsed source from the start of node `i` up to (not including) its
/// child under `field` (the whole node when that child is missing or does not
/// start after the node does).
pub open spec fn header_text(t: TreeView, i: int, field: Seq<char>) -> Seq<char> {
    let r = t.recs();
    let start = r[i].start;
    let end = match field_child(r, i, field) {
        Some(c) => r[c].start,
        None => r[i].end,
    };
    if end <= start || end > byte_len(t.text()) {
        node_collapsed(t, i)
    } else {
        match (char_index(t.text(), start), char_index(t.text(), end)) {
            (Some(a), Some(b)) => collapsed_chars(t.text(), a, b, node_literal_ranges(r, i)),
            _ => Seq::empty(),
        }
    }
}

/// Collapsed source from `node.start` up to (not including) the named field.
pub fn header_before_field(t: &SyntaxTree, i: usize, field: &str) -> (s: String)
    requires
        t.wf(),
        i < t.len(),
    ensures
        s@ == header_text(t@, i as int, field@),
{
    let start = t.nodes[i].start;
    let end = match t.child_by_field(i, field) {
        Some(c) => t.nodes[c].start,
        None => t.nodes[i].end,
    };
    let total = t.pos[t.src.len()];
    assert(t.text().take(t.text().len() as int) =~= t.text());
    if end <= start || end > total {
        return collapse_node(t, i);
    }
    match (t.char_at(start), t.char_at(end)) {
        (Some(a), Some(b)) => {
            proof {
                lemma_char_index_bounds(t.text(), start as int);
                lemma_char_index_bounds(t.text(), end as int);
                if b < a {
                    crate::text::lemma_byte_offset_mono(t.text(), b as int, a as int);
                }
            }
            let lits = literal_ranges(t, i);
            collapse_chars(t, a, b, &lits)
        },
        _ => String::new(),
    }
}

/// Identifier chain of a (possibly scoped) identifier, field access or member
/// expression.
pub open spec fn ident_path_of(t: TreeView, i: int) -> Seq<Seq<char>>
    decreases t.len() - i,
{
    let r = t.recs();
    if i < 0 || i >= t.len() {
        Seq::empty()
    } else {
        let k = r[i].kind;
        proof {
            lemma_subtree_end_bounds(r, i);
            lemma_field_child_from(r, subtree_end(r, i), i + 1, "scope"@);
            lemma_field_child_from(r, subtree_end(r, i), i + 1, "path"@);
            lemma_field_child_from(r, subtree_end(r, i), i + 1, "name"@);
            lemma_field_child_from(r, subtree_end(r, i), i + 1, "object"@);
            lemma_field_child_from(r, subtree_end(r, i), i + 1, "field"@);
            lemma_field_child_from(r, subtree_end(r, i), i + 1, "property"@);
            lemma_last_named_from(r, subtree_end(r, i), i + 1, None);
        }
        if k == "identifier"@ || k == "type_identifier"@ || k == "property_identifier"@ || k
            == "field_identifier"@ {
            seq![t.node_text(i)]
        } else if k == "scoped_identifier"@ || k == "scoped_type_identifier"@ {
            let scope = match field_child(r, i, "scope"@) {
                Some(c) => Some(c),
                None => field_child(r, i, "path"@),
            };
            let head = match scope {
                Some(c) => ident_path_of(t, c),
                None => Seq::empty(),
            };
            let last = match field_child(r, i, "name"@) {
                Some(c) => Some(c),
                None => last_named_from(r, subtree_end(r, i), i + 1, None),
            };
            head + match last {
                Some(c) => ident_path_of(t, c),
                None => Seq::empty(),
            }
        } else if k == "field_access"@ {
            (match field_child(r, i, "object"@) {
                Some(c) => ident_path_of(t, c),
                None => Seq::empty(),
            }) + match field_child(r, i, "field"@) {
                Some(c) => ident_path_of(t, c),
                None => Seq::empty(),
            }
        } else if k == "member_expression"@ {
            (match field_child(r, i, "object"@) {
                Some(c) => ident_path_of(t, c),
                None => Seq::empty(),
            }) + match field_child(r, i, "property"@) {
                Some(c) => ident_path_of(t, c),
                None => Seq::empty(),
            }
        } else {
            Seq::empty()
        }
    }
}

fn append_strings(a: &mut Vec<String>, b: Vec<String>)
    ensures
        final(a).deep_view() == old(a).deep_view() + b.deep_view(),
{
    let mut b = b;
    let ghost a0 = a.deep_view();
    let ghost bv = b.deep_view();
    a.append(&mut b);
    assert(a.deep_view() =~= a0 + bv);
}

/// Identifier chain on `scoped_identifier` / `identifier` / `type_identifier`.
pub fn ident_path(t: &SyntaxTree, i: usize) -> (p: Vec<String>)
    requires
        t.wf(),
        i < t.len(),
    ensures
        p.deep_view() == ident_path_of(t@, i as int),
    decreases t.len() - i,
{
    let ghost r = t.recs();
    let k = t.kind(i);
    if str_eq(k, "identifier") || str_eq(k, "type_identifier") || str_eq(k, "property_identifier")
        || str_eq(k, "field_identifier") {
        let mut v = Vec::new();
        v.push(node_text(t, i));
        assert(v.deep_view() =~= seq![t.node_text(i as int)]);
        v
    } else if str_eq(k, "scoped_identifier") || str_eq(k, "scoped_type_identifier") {
        let scope = match t.child_by_field(i, "scope") {
            Some(c) => Some(c),
            None => t.child_by_field(i, "path"),
        };
        let mut segs = match scope {
            Some(c) => ident_path(t, c),
            None => Vec::new(),
        };
        let last = match t.child_by_field(i, "name") {
            Some(c) => Some(c),
            None => t.last_named(i),
        };
        match last {
            Some(c) => {
                let tail = ident_path(t, c);
                append_strings(&mut segs, tail);
            },
            None => {
                assert(segs.deep_view() =~= segs.deep_view() + Seq::<Seq<char>>::empty());
            },
        }
        segs
    } else if str_eq(k, "field_access") || str_eq(k, "member_expression") {
        let is_field = str_eq(k, "field_access");
        let mut segs = match t.child_by_field(i, "object") {
            Some(c) => ident_path(t, c),
            None => Vec::new(),
        };
        let tail_child = if is_field {
            t.child_by_field(i, "field")
        } else {
            t.child_by_field(i, "property")
        };
        match tail_child {
            Some(c) => {
                let tail = ident_path(t, c);
                append_strings(&mut segs, tail);
            },
            None => {
                assert(segs.deep_view() =~= segs.deep_view() + Seq::<Seq<char>>::empty());
            },
        }
        segs
    } else {
        Vec::new()
    }
}

} // verus!
