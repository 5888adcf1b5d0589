//! Which files are notes, judged by their extension.
use vstd::prelude::*;
use crate::parser::{base_name, last_index, last_index_of};
use crate::text::{chars_of, lower_of, lowercase, string_of};
use crate::text::{copy_range, str_eq};

verus! {

/// A note file found under a root directory.
#[derive(Debug, Clone)]
pub struct DiscoveredFile {
    /// Full path of the file.
    pub path: String,
    /// Path relative to the root: the file's identifier everywhere else.
    pub relative_path: String,
    pub is_markdown: bool,
}

/// The extension of the last path component: what follows its last dot, when that dot is
/// not the component's first character.
pub open spec fn extension_of(path: Seq<char>) -> Option<Seq<char>> {
    let b = base_name(path);
    let d = last_index_of(b, '.');
    if b == seq!['.', '.'] || d <= 0 {
        None
    } else {
        Some(b.skip(d + 1))
    }
}

/// Lower-case extensions of Markdown files.
pub open spec fn is_markdown_ext(e: Seq<char>) -> bool {
    e == "md"@ || e == "markdown"@ || e == "mdown"@ || e == "mkd"@ || e == "mkdn"@
}

/// Lower-case extensions of note files: Markdown and plain text.
pub open spec fn is_notes_ext(e: Seq<char>) -> bool {
    is_markdown_ext(e) || e == "txt"@
}

/// The extension of a path.
pub fn extension(path: &str) -> (r: Option<String>)
    ensures
        crate::text::opt_view(r) == extension_of(path@),
{
    let cs = chars_of(path);
    let from = match last_index(cs.as_slice(), '/') {
        Some(i) => {
            assert(i < cs.len());
            i + 1
        },
        None => 0,
    };
    let b = copy_range(cs.as_slice(), from, cs.len());
    assert(b@ =~= base_name(path@));
    if b.len() == 2 && b[0] == '.' && b[1] == '.' {
        assert(b@ =~= seq!['.', '.']);
        return None;
    }
    proof {
        assert(b@ != seq!['.', '.']) by {
            if b@ == seq!['.', '.'] {
                assert(b@.len() == 2 && b@[0] == '.' && b@[1] == '.');
            }
        }
    }
    match last_index(b.as_slice(), '.') {
        Some(d) if d > 0 => {
            let e = copy_range(b.as_slice(), d + 1, b.len());
            assert(e@ =~= b@.skip(d + 1));
            Some(string_of(e.as_slice()))
        },
        _ => None,
    }
}

/// Whether `s` is one of the Markdown extensions.
fn markdown_ext(s: &str) -> (r: bool)
    ensures
        r == is_markdown_ext(s@),
{
    str_eq(s, "md") || str_eq(s, "markdown") || str_eq(s, "mdown") || str_eq(
        s,
        "mkd",
    ) || str_eq(s, "mkdn")
}

/// Whether the path names a Markdown file, by its extension in any case.
pub fn is_markdown_file(path: &str) -> (r: bool)
    ensures
        r == (extension_of(path@) matches Some(e) && is_markdown_ext(lower_of(e))),
{
    match extension(path) {
        Some(e) => {
            let l = lowercase(e.as_str());
            markdown_ext(l.as_str())
        },
        None => false,
    }
}

/// Whether the path names a note file (Markdown or plain text), by its extension in any case.
pub fn is_notes_file(path: &str) -> (r: bool)
    ensures
        r == (extension_of(path@) matches Some(e) && is_notes_ext(lower_of(e))),
{
    match extension(path) {
        Some(e) => {
            let l = lowercase(e.as_str());
            markdown_ext(l.as_str()) || str_eq(l.as_str(), "txt")
        },
        None => false,
    }
}

} // verus!
